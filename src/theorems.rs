//! Facts about the digit tests and the scans that hold for every candidate.

use crate::base_range::is_base_range;
use crate::residue_filter::{is_allowed_residue, residue_filter, residue_target, residues_below};
use crate::bignat::BigNat;
use crate::scan::{counts_of, nats_of, nice_list, pairs_of, passes_filter, DetailedScan};
use crate::digits::{digits_asc, is_nice, lemma_sqube_digits_in_range, sqube_digits, unique_count};
use vstd::arithmetic::div_mod::{
    lemma_add_mod_noop, lemma_basic_div, lemma_fundamental_div_mod, lemma_mod_bound,
    lemma_mod_multiples_vanish, lemma_mul_mod_noop_general, lemma_small_mod,
};
use vstd::arithmetic::power::{
    lemma_pow0, lemma_pow1, lemma_pow_adds, lemma_pow_increases, lemma_pow_multiplies,
    lemma_pow_positive, lemma_square_is_pow2, pow,
};
use vstd::prelude::*;
use vstd::set_lib::{lemma_int_range, lemma_len_subset, set_int_range};

verus! {

/// Every candidate `n >= 1` has between 1 and `b` distinct digit values in
/// its sqube.
pub proof fn lemma_unique_count_bounds(n: nat, b: nat)
    requires
        b >= 4,
        n >= 1,
    ensures
        1 <= unique_count(n, b) <= b,
{
    let s = sqube_digits(n, b);
    lemma_sqube_digits_in_range(n, b);
    assert(s.to_set().subset_of(set_int_range(0, b as int)));
    lemma_int_range(0, b as int);
    lemma_len_subset(s.to_set(), set_int_range(0, b as int));
    assert(n * n >= 1) by (nonlinear_arith)
        requires
            n >= 1,
    ;
    assert(digits_asc(n * n, b).len() > 0);
    assert(s.len() > 0);
    s.lemma_cardinality_of_empty_set_is_0();
}

proof fn lemma_cube_is_pow3(x: int)
    ensures
        pow(x, 3) == x * x * x,
{
    lemma_pow_adds(x, 2, 1);
    lemma_square_is_pow2(x);
    lemma_pow1(x);
}

/// `(b^a)² = b^(2a)`.
proof fn lemma_pow_square(bi: int, a: nat)
    ensures
        pow(bi, a) * pow(bi, a) == pow(bi, 2 * a),
{
    lemma_pow_multiplies(bi, a, 2);
    lemma_square_is_pow2(pow(bi, a));
    assert(a * 2 == 2 * a);
}

/// `(b^a)³ = b^(3a)`.
proof fn lemma_pow_cube(bi: int, a: nat)
    ensures
        pow(bi, a) * pow(bi, a) * pow(bi, a) == pow(bi, 3 * a),
{
    lemma_pow_multiplies(bi, a, 3);
    lemma_cube_is_pow3(pow(bi, a));
    assert(a * 3 == 3 * a);
}

proof fn lemma_monotone(a: int, c: int)
    requires
        0 <= a < c,
    ensures
        a * a < c * c,
        a * a * a < c * c * c,
{
    assert(a * a < c * c) by (nonlinear_arith)
        requires
            0 <= a < c,
    ;
    assert(a * a * a < c * c * c) by (nonlinear_arith)
        requires
            0 <= a < c,
            a * a < c * c,
    ;
}

proof fn lemma_monotone_le(a: int, c: int)
    requires
        0 <= a <= c,
    ensures
        a * a <= c * c,
        a * a * a <= c * c * c,
{
    if a < c {
        lemma_monotone(a, c);
    }
}

/// With `x³ = y²`: a lower bound `V` on `y` gives the lower bound `U` on `x`
/// when `U³ <= V²`.
proof fn lemma_square_at_least(x: int, y: int, u: int, v: int)
    requires
        x * x * x == y * y,
        0 <= x,
        0 <= u,
        0 <= v <= y,
        u * u * u <= v * v,
    ensures
        u <= x,
{
    if x < u {
        lemma_monotone(x, u);
        lemma_monotone_le(v, y);
    }
}

/// With `x³ = y²`: `y < V` gives `x < U` when `V² <= U³`.
proof fn lemma_square_below(x: int, y: int, u: int, v: int)
    requires
        x * x * x == y * y,
        0 <= x,
        0 <= u,
        0 <= y < v,
        v * v <= u * u * u,
    ensures
        x < u,
{
    if x >= u {
        lemma_monotone_le(u, x);
        lemma_monotone(y, v);
    }
}

/// With `x³ = y²`: `x >= U` gives `y >= V` when `V² <= U³`.
proof fn lemma_cube_at_least(x: int, y: int, u: int, v: int)
    requires
        x * x * x == y * y,
        0 <= y,
        0 <= v,
        0 <= u <= x,
        v * v <= u * u * u,
    ensures
        v <= y,
{
    if y < v {
        lemma_monotone(y, v);
        lemma_monotone_le(u, x);
    }
}

/// With `x³ = y²`: `x < U` gives `y < V` when `U³ <= V²`.
proof fn lemma_cube_below(x: int, y: int, u: int, v: int)
    requires
        x * x * x == y * y,
        0 <= x < u,
        0 <= y,
        0 <= v,
        u * u * u <= v * v,
    ensures
        y < v,
{
    if y >= v {
        lemma_monotone_le(v, y);
        lemma_monotone(x, u);
    }
}

proof fn lemma_div_bounds(m: int, d: int, p: int, q: int)
    requires
        d > 0,
        d * p <= m < d * q,
    ensures
        p <= m / d < q,
{
    lemma_fundamental_div_mod(m, d);
    lemma_mod_bound(m, d);
    let qq = m / d;
    let r = m % d;
    assert(p <= qq && qq < q) by (nonlinear_arith)
        requires
            d > 0,
            d * p <= m,
            m < d * q,
            m == d * qq + r,
            0 <= r < d,
    ;
}

/// A number in `[b^(l-1), b^l)` has exactly `l` digits in base `b`.
pub proof fn lemma_digits_len(m: nat, b: nat, l: nat)
    requires
        b >= 2,
        l >= 1,
        pow(b as int, (l - 1) as nat) <= m,
        m < pow(b as int, l),
    ensures
        digits_asc(m, b).len() == l,
    decreases l,
{
    let bi = b as int;
    lemma_pow1(bi);
    if l == 1 {
        lemma_pow0(bi);
        lemma_basic_div(m as int, bi);
        assert(digits_asc(m / b, b).len() == 0);
    } else {
        let p = pow(bi, (l - 2) as nat);
        lemma_pow_adds(bi, 1, (l - 2) as nat);
        lemma_pow_adds(bi, 1, (l - 1) as nat);
        assert((1 + (l - 2)) as nat == (l - 1) as nat);
        assert((1 + (l - 1)) as nat == l);
        lemma_pow_positive(bi, (l - 2) as nat);
        lemma_div_bounds(m as int, bi, p, pow(bi, (l - 1) as nat));
        assert(m > 0) by (nonlinear_arith)
            requires
                bi * p <= m,
                bi >= 2,
                p > 0,
        ;
        lemma_digits_len(m / b, b, (l - 1) as nat);
    }
}

/// Inside the search interval of its base, a candidate's square and cube
/// together have exactly `b` digits.
pub proof fn lemma_sqube_len_in_range(n: nat, b: nat, s: nat, e: nat)
    requires
        b >= 2,
        is_base_range(b, s, e),
        s <= n < e,
    ensures
        sqube_digits(n, b).len() == b,
{
    broadcast use lemma_pow_positive;

    let bi = b as int;
    let k = b / 5;
    let ni = n as int;
    let x = ni * ni;
    let y = ni * ni * ni;
    assert(x * x * x == y * y) by (nonlinear_arith)
        requires
            x == ni * ni,
            y == ni * ni * ni,
    ;
    assert(x >= 0 && y >= 0) by (nonlinear_arith)
        requires
            ni >= 0,
            x == ni * ni,
            y == ni * ni * ni,
    ;
    lemma_cube_is_pow3(s as int);
    lemma_cube_is_pow3(e as int);
    lemma_square_is_pow2(s as int);
    lemma_square_is_pow2(e as int);
    lemma_monotone_le(s as int, ni);
    lemma_monotone(ni, e as int);
    let l2: nat;
    let l3: nat;
    if b % 5 == 0 {
        let (ua, va) = ((2 * k - 1) as nat, (3 * k - 1) as nat);
        lemma_pow_square(bi, k);
        lemma_pow_cube(bi, k);
        lemma_pow_cube(bi, ua);
        lemma_pow_square(bi, va);
        lemma_pow_increases(b, 3 * ua, 2 * va);
        lemma_square_at_least(x, y, pow(bi, ua), pow(bi, va));
        l2 = 2 * k;
        l3 = 3 * k;
    } else if b % 5 == 2 {
        lemma_pow_square(bi, k);
        lemma_pow_cube(bi, k);
        lemma_pow_square(bi, 3 * k + 1);
        lemma_pow_cube(bi, 2 * k + 1);
        lemma_pow_increases(b, 2 * (3 * k + 1), 3 * (2 * k + 1));
        lemma_square_below(x, y, pow(bi, 2 * k + 1), pow(bi, 3 * k + 1));
        l2 = 2 * k + 1;
        l3 = 3 * k + 1;
    } else if b % 5 == 3 {
        lemma_pow_cube(bi, 2 * k + 1);
        lemma_pow_square(bi, 3 * k + 2);
        lemma_pow_increases(b, 3 * (2 * k + 1), 2 * (3 * k + 2));
        lemma_cube_below(x, y, pow(bi, 2 * k + 1), pow(bi, 3 * k + 2));
        lemma_pow_cube(bi, 2 * k);
        lemma_pow_square(bi, 3 * k + 1);
        lemma_pow_increases(b, 3 * (2 * k), 2 * (3 * k + 1));
        lemma_square_at_least(x, y, pow(bi, 2 * k), pow(bi, 3 * k + 1));
        l2 = 2 * k + 1;
        l3 = 3 * k + 2;
    } else {
        assert(b % 5 == 4);
        lemma_pow_cube(bi, 2 * k + 2);
        lemma_pow_square(bi, 3 * k + 2);
        lemma_pow_increases(b, 2 * (3 * k + 2), 3 * (2 * k + 2));
        lemma_square_below(x, y, pow(bi, 2 * k + 2), pow(bi, 3 * k + 2));
        lemma_pow_cube(bi, 2 * k + 1);
        lemma_pow_square(bi, 3 * k + 1);
        lemma_pow_increases(b, 2 * (3 * k + 1), 3 * (2 * k + 1));
        lemma_cube_at_least(x, y, pow(bi, 2 * k + 1), pow(bi, 3 * k + 1));
        l2 = 2 * k + 2;
        l3 = 3 * k + 2;
    }
    lemma_digits_len(x as nat, b, l2);
    lemma_digits_len(y as nat, b, l3);
}

/// `(v + 1)² <= 2 v²` once `v >= 3`, so `(v + 1)⁶ <= 8 v⁶`.
proof fn lemma_next_sixth_power(v: int)
    requires
        v >= 3,
    ensures
        (v + 1) * (v + 1) <= 2 * (v * v),
        ((v + 1) * (v + 1)) * ((v + 1) * (v + 1)) * ((v + 1) * (v + 1)) <= 8 * ((v * v) * (v * v)
            * (v * v)),
{
    assert((v + 1) * (v + 1) <= 2 * (v * v)) by (nonlinear_arith)
        requires
            v >= 3,
    ;
    let a = (v + 1) * (v + 1);
    let c = v * v;
    lemma_monotone_le(a, 2 * c);
    assert((2 * c) * (2 * c) * (2 * c) == 8 * (c * c * c)) by (nonlinear_arith);
}

/// `(x * x)³ = (x * x * x)²`.
proof fn lemma_sixth_power(x: int)
    ensures
        (x * x) * (x * x) * (x * x) == (x * x * x) * (x * x * x),
{
    assert((x * x) * (x * x) * (x * x) == (x * x * x) * (x * x * x)) by (nonlinear_arith);
}

/// The search interval of every base from 4 on is well formed: it does not
/// start after it ends.
pub proof fn lemma_base_range_ordered(b: nat, s: nat, e: nat)
    requires
        b >= 4,
        is_base_range(b, s, e),
    ensures
        s <= e,
{
    broadcast use lemma_pow_positive;

    let bi = b as int;
    let k = b / 5;
    let si = s as int;
    let ei = e as int;
    lemma_cube_is_pow3(si);
    lemma_cube_is_pow3(si - 1);
    lemma_cube_is_pow3(ei + 1);
    lemma_square_is_pow2(si);
    lemma_square_is_pow2(si - 1);
    lemma_square_is_pow2(ei + 1);
    if b % 5 == 0 {
        if s > e {
            lemma_monotone_le(ei, si - 1);
            lemma_pow_cube(bi, k);
            lemma_pow_increases(b, (3 * k - 1) as nat, 3 * k);
        }
    } else if b % 5 == 1 {
    } else if b % 5 == 2 {
        if s > e {
            lemma_monotone_le(ei + 1, si);
            lemma_pow_cube(bi, k);
            lemma_pow_increases(b, 3 * k, 3 * k + 1);
        }
    } else if b % 5 == 3 {
        let big = pow(bi, 3 * k + 1);
        let c = pow(bi, 2 * k + 1);
        lemma_pow_square(bi, 2);
        lemma_square_is_pow2(bi);
        lemma_pow_increases(b, 4, 3 * k + 1);
        assert(bi * bi * (bi * bi) >= 4096) by (nonlinear_arith)
            requires
                bi >= 8,
        ;
        assert(s >= 5) by {
            if s <= 4 {
                lemma_monotone_le(si, 4);
            }
        }
        let v = si - 1;
        lemma_next_sixth_power(v);
        lemma_pow_cube(bi, 2 * k + 1);
        lemma_pow_square(bi, 3 * k + 1);
        lemma_pow_adds(bi, 1, 6 * k + 2);
        lemma_pow1(bi);
        assert(3 * (2 * k + 1) == 1 + (6 * k + 2) && 2 * (3 * k + 1) == 6 * k + 2);
        assert(si * si <= c) by {
            if si * si > c {
                let a = si * si;
                let cc = v * v;
                lemma_monotone(c, a);
                lemma_monotone(v * v * v, big);
                lemma_sixth_power(v);
                assert(c * c * c == bi * (big * big));
                assert(8 * (big * big) <= bi * (big * big)) by (nonlinear_arith)
                    requires
                        bi >= 8,
                        big > 0,
                ;
            }
        }
        if s > e {
            lemma_monotone_le(ei + 1, si);
        }
    } else {
        assert(b % 5 == 4);
        let c = pow(bi, 2 * k + 1);
        let d = pow(bi, 3 * k + 2);
        assert(si * si * si <= d) by {
            if k == 0 {
                lemma_pow1(bi);
                assert(b == 4);
                assert(d == 16) by {
                    lemma_square_is_pow2(bi);
                }
                if si >= 3 {
                    lemma_monotone_le(2, si - 1);
                }
                lemma_monotone_le(si, 2);
            } else {
                lemma_pow_increases(b, 3, 2 * k + 1);
                lemma_cube_is_pow3(bi);
                assert(bi * bi * bi >= 729) by (nonlinear_arith)
                    requires
                        bi >= 9,
                ;
                assert(s >= 4) by {
                    if s <= 3 {
                        lemma_monotone_le(si, 3);
                    }
                }
                let v = si - 1;
                lemma_next_sixth_power(v);
                lemma_pow_cube(bi, 2 * k + 1);
                lemma_pow_square(bi, 3 * k + 2);
                lemma_pow_adds(bi, 1, 6 * k + 3);
                lemma_pow1(bi);
                assert(2 * (3 * k + 2) == 1 + (6 * k + 3) && 3 * (2 * k + 1) == 6 * k + 3);
                if si * si * si > d {
                    lemma_monotone(d, si * si * si);
                    lemma_monotone(v * v, c);
                    lemma_sixth_power(si);
                    assert(d * d == bi * (c * c * c));
                    assert(8 * (c * c * c) <= bi * (c * c * c)) by (nonlinear_arith)
                        requires
                            bi >= 9,
                            c > 0,
                    ;
                }
            }
        }
        if s > e {
            lemma_monotone_le(ei + 1, si);
        }
    }
}

/// Inside the search interval of its base, a candidate is nice exactly when
/// its sqube uses all `b` digit values.
pub proof fn lemma_nice_iff_all_digits(n: nat, b: nat, s: nat, e: nat)
    requires
        b >= 2,
        is_base_range(b, s, e),
        s <= n < e,
    ensures
        is_nice(n, b) <==> unique_count(n, b) == b,
{
    lemma_sqube_len_in_range(n, b, s, e);
    let sq = sqube_digits(n, b);
    if is_nice(n, b) {
        sq.unique_seq_to_set();
    }
    if unique_count(n, b) == b {
        sq.lemma_no_dup_set_cardinality();
    }
}

/// Scanning the same range twice with the same base gives identical
/// results: two detailed scans of `[s, e)` hold the same histogram, bucket
/// for bucket, and the same near misses; two nice-only scans list the same
/// numbers.
pub proof fn lemma_scan_idempotent(
    s: nat,
    e: nat,
    b: nat,
    first: DetailedScan,
    second: DetailedScan,
    nice_first: Seq<BigNat>,
    nice_second: Seq<BigNat>,
)
    requires
        first.describes(s, e, b),
        second.describes(s, e, b),
        nats_of(nice_first) == nice_list(s, e, b),
        nats_of(nice_second) == nice_list(s, e, b),
    ensures
        first.unique_count@ == second.unique_count@,
        pairs_of(first.near_misses@) == pairs_of(second.near_misses@),
        nats_of(nice_first) == nats_of(nice_second),
{
    let h1 = first.unique_count@;
    let h2 = second.unique_count@;
    assert(counts_of(h1) == counts_of(h2));
    assert forall|i: int| 0 <= i < h1.len() implies h1[i] == h2[i] by {
        assert(counts_of(h1)[i] == counts_of(h2)[i]);
    }
    assert(h1 =~= h2);
}

/// The sum of a sequence of digits.
pub open spec fn digit_sum(s: Seq<int>) -> int
    decreases s.len(),
{
    if s.len() == 0 {
        0
    } else {
        s[0] + digit_sum(s.drop_first())
    }
}

/// The candidates in `[s, e)` that are nice, in increasing order.
pub open spec fn nice_numbers(s: nat, e: nat, b: nat) -> Seq<nat>
    decreases e,
{
    if e <= s {
        Seq::empty()
    } else {
        let n = (e - 1) as nat;
        if is_nice(n, b) {
            nice_numbers(s, n, b).push(n)
        } else {
            nice_numbers(s, n, b)
        }
    }
}

proof fn lemma_digit_sum_concat(a: Seq<int>, c: Seq<int>)
    ensures
        digit_sum(a + c) == digit_sum(a) + digit_sum(c),
    decreases a.len(),
{
    if a.len() > 0 {
        assert((a + c).drop_first() =~= a.drop_first() + c);
        lemma_digit_sum_concat(a.drop_first(), c);
    } else {
        assert(a + c =~= c);
    }
}

/// A number and its digit sum agree modulo `b - 1`.
proof fn lemma_digit_sum_mod(m: nat, b: nat)
    requires
        b >= 2,
    ensures
        digit_sum(digits_asc(m, b)) % ((b - 1) as int) == (m as int) % ((b - 1) as int),
    decreases m,
{
    if m > 0 {
        let d = digits_asc(m, b);
        let q = m / b;
        let r = m % b;
        lemma_div_decreases_nat(m, b);
        lemma_digit_sum_mod(q, b);
        assert(d.drop_first() =~= digits_asc(q, b));
        let bm = (b - 1) as int;
        lemma_fundamental_div_mod(m as int, b as int);
        assert(m == bm * q + (q + r)) by (nonlinear_arith)
            requires
                m == b * q + r,
                bm == b - 1,
        ;
        lemma_mod_multiples_vanish(q as int, (q + r) as int, bm);
        lemma_add_mod_noop(r as int, digit_sum(digits_asc(q, b)), bm);
        lemma_add_mod_noop(r as int, q as int, bm);
    }
}

proof fn lemma_div_decreases_nat(m: nat, b: nat)
    requires
        m > 0,
        b >= 2,
    ensures
        m / b < m,
{
    vstd::arithmetic::div_mod::lemma_div_decreases(m as int, b as int);
}

/// `b` distinct values below `b` are `0, 1, ..., b - 1` in some order, so they
/// sum to `b * (b - 1) / 2`.
proof fn lemma_permutation_sum(s: Seq<int>, b: nat)
    requires
        s.len() == b,
        s.no_duplicates(),
        forall|i: int| 0 <= i < s.len() ==> 0 <= #[trigger] s[i] < b,
    ensures
        digit_sum(s) == b * (b - 1) / 2,
    decreases b,
{
    if b == 0 {
        return;
    }
    s.unique_seq_to_set();
    lemma_int_range(0, b as int);
    assert(s.to_set().subset_of(set_int_range(0, b as int)));
    vstd::set_lib::lemma_subset_equality(s.to_set(), set_int_range(0, b as int));
    assert(set_int_range(0, b as int).contains(b - 1));
    assert(s.to_set().contains(b - 1));
    let i = choose|i: int| 0 <= i < s.len() && s[i] == b - 1;
    let pre = s.subrange(0, i);
    let post = s.subrange(i + 1, s.len() as int);
    let t = pre + post;
    assert(s =~= pre + (seq![s[i]] + post));
    lemma_digit_sum_concat(pre, seq![s[i]] + post);
    lemma_digit_sum_concat(seq![s[i]], post);
    assert((seq![s[i]]).drop_first() =~= Seq::<int>::empty());
    assert(digit_sum(Seq::<int>::empty()) == 0);
    assert(digit_sum(seq![s[i]]) == s[i]);
    assert(digit_sum(s) == digit_sum(pre) + s[i] + digit_sum(post));
    lemma_digit_sum_concat(pre, post);
    assert forall|j: int| 0 <= j < t.len() implies 0 <= #[trigger] t[j] < b - 1 by {
        if j < i {
            assert(t[j] == s[j]);
        } else {
            assert(t[j] == s[j + 1]);
        }
    }
    assert(t.no_duplicates()) by {
        assert forall|j: int, l: int| 0 <= j < t.len() && 0 <= l < t.len() && j != l implies t[j]
            != t[l] by {
            let sj = if j < i {
                j
            } else {
                j + 1
            };
            let sl = if l < i {
                l
            } else {
                l + 1
            };
            assert(t[j] == s[sj]);
            assert(t[l] == s[sl]);
        }
    }
    let bb = (b - 1) as nat;
    lemma_permutation_sum(t, bb);
    let ds = digit_sum(s);
    let dt = digit_sum(t);
    assert(ds == dt + bb);
    assert(ds == b * (b - 1) / 2) by (nonlinear_arith)
        requires
            ds == dt + bb,
            dt == bb * (bb - 1) / 2,
            bb == b - 1,
            b >= 1,
    ;
}

/// The residue `r` is listed below `n` exactly when it is allowed.
proof fn lemma_residues_below_contains(b: nat, n: nat, r: nat)
    requires
        n <= u32::MAX + 1,
        r <= u32::MAX,
    ensures
        residues_below(b, n).contains(r as u32) <==> (r < n && is_allowed_residue(r, b)),
    decreases n,
{
    if n > 0 {
        let m = (n - 1) as nat;
        lemma_residues_below_contains(b, m, r);
        let below = residues_below(b, m);
        if is_allowed_residue(m, b) {
            assert(residues_below(b, n) == below.push(m as u32));
            if r == m {
                assert(residues_below(b, n)[below.len() as int] == r as u32);
            }
            if residues_below(b, n).contains(r as u32) && r != m {
                let k = choose|k: int|
                    0 <= k < residues_below(b, n).len() && residues_below(b, n)[k] == r as u32;
                if k < below.len() {
                    assert(below[k] == r as u32);
                }
            }
            if below.contains(r as u32) {
                let k = choose|k: int| 0 <= k < below.len() && below[k] == r as u32;
                assert(residues_below(b, n)[k] == r as u32);
            }
        }
    }
}

/// Within the search interval of its base, every nice candidate passes the
/// residue filter: the digit sums of its square and cube add up to
/// `b * (b - 1) / 2`, and a digit sum is congruent to its number modulo
/// `b - 1`.
pub proof fn lemma_nice_passes_filter(n: nat, b: nat, s: nat, e: nat)
    requires
        2 <= b <= u32::MAX,
        is_base_range(b, s, e),
        s <= n < e,
        is_nice(n, b),
    ensures
        passes_filter(n, b),
{
    let bm = (b - 1) as int;
    let ni = n as int;
    lemma_sqube_len_in_range(n, b, s, e);
    lemma_sqube_digits_in_range(n, b);
    let d2 = digits_asc(n * n, b);
    let d3 = digits_asc(n * n * n, b);
    lemma_permutation_sum(d2 + d3, b);
    lemma_digit_sum_concat(d2, d3);
    lemma_digit_sum_mod(n * n, b);
    lemma_digit_sum_mod(n * n * n, b);
    lemma_add_mod_noop(digit_sum(d2), digit_sum(d3), bm);
    lemma_add_mod_noop(ni * ni, ni * ni * ni, bm);
    let r = ni % bm;
    lemma_mod_bound(ni, bm);
    lemma_mul_mod_noop_general(ni, ni, bm);
    lemma_mul_mod_noop_general(ni * ni, ni, bm);
    lemma_mul_mod_noop_general(r * r, ni, bm);
    lemma_mul_mod_noop_general(r, r, bm);
    lemma_small_mod(r as nat, bm as nat);
    assert((r * r * r) % bm == (ni * ni * ni) % bm) by {
        lemma_mul_mod_noop_general(r * r, r, bm);
        lemma_mul_mod_noop_general(ni * ni, ni, bm);
    }
    lemma_add_mod_noop(r * r, r * r * r, bm);
    assert(is_allowed_residue(r as nat, b));
    lemma_residues_below_contains(b, (b - 1) as nat, r as nat);
    assert(residue_filter(b).contains((n % (b - 1) as nat) as u32));
}

/// Within the search interval of a base, the residue prefilter loses
/// nothing: the nice-only scan of any part of it lists exactly its nice
/// numbers.
pub proof fn lemma_filter_loses_nothing(s: nat, e: nat, b: nat, lo: nat, hi: nat)
    requires
        2 <= b <= u32::MAX,
        is_base_range(b, lo, hi),
        lo <= s,
        e <= hi,
    ensures
        nice_list(s, e, b) == nice_numbers(s, e, b),
    decreases e,
{
    if e > s {
        let n = (e - 1) as nat;
        lemma_filter_loses_nothing(s, n, b, lo, hi);
        if is_nice(n, b) {
            lemma_nice_passes_filter(n, b, lo, hi);
        }
    }
}

} // verus!
