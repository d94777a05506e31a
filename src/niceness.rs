//! The per-candidate digit tests.

use crate::bignat::{nat_mul, BigNat};
use crate::digits::{digits_asc, is_nice, lemma_digits_in_range, lemma_sqube_digits_in_range, sqube_digits, unique_count};
use vstd::prelude::*;
use vstd::set_lib::lemma_len_subset;

verus! {

/// The positions below `n` that hold `true`.
pub open spec fn marked(t: Seq<bool>, n: int) -> Set<int> {
    Set::new(|d: int| 0 <= d < n && t[d])
}

/// A sequence that repeats an element of its prefix has a duplicate.
proof fn lemma_repeat_breaks_uniqueness(a: Seq<int>, x: int, rest: Seq<int>)
    requires
        a.contains(x),
    ensures
        !(a.push(x) + rest).no_duplicates(),
{
    let s = a.push(x) + rest;
    let i = choose|i: int| 0 <= i < a.len() && a[i] == x;
    assert(s[i] == x);
    assert(s[a.len() as int] == x);
}

/// A sequence whose prefix has a duplicate has a duplicate.
proof fn lemma_prefix_duplicate(a: Seq<int>, b: Seq<int>)
    requires
        !a.no_duplicates(),
    ensures
        !(a + b).no_duplicates(),
{
    let (i, j) = choose|i: int, j: int|
        0 <= i < a.len() && 0 <= j < a.len() && i != j && a[i] == a[j];
    assert((a + b)[i] == a[i]);
    assert((a + b)[j] == a[j]);
}

/// A table of `n` entries, all `false`.
fn new_table(n: u32) -> (t: Vec<bool>)
    ensures
        t@.len() == n,
        forall|d: int| 0 <= d < n ==> !t@[d],
{
    let mut t: Vec<bool> = Vec::new();
    let mut i: u32 = 0;
    while i < n
        invariant
            i <= n,
            t@.len() == i,
            forall|d: int| 0 <= d < i ==> !t@[d],
        decreases n - i,
    {
        t.push(false);
        i = i + 1;
    }
    t
}

/// Sets the entry of every digit in `digits`.
fn mark_digits(table: &mut Vec<bool>, digits: &Vec<u32>)
    requires
        forall|j: int| 0 <= j < digits@.len() ==> (digits@[j] as int) < old(table)@.len(),
    ensures
        final(table)@.len() == old(table)@.len(),
        forall|d: int|
            0 <= d < old(table)@.len() ==> final(table)@[d] == (old(table)@[d]
                || digits@.map_values(|x: u32| x as int).contains(d)),
{
    let ghost ds = digits@.map_values(|x: u32| x as int);
    let mut i: usize = 0;
    while i < digits.len()
        invariant
            0 <= i <= digits@.len(),
            ds == digits@.map_values(|x: u32| x as int),
            forall|j: int| 0 <= j < digits@.len() ==> (digits@[j] as int) < old(table)@.len(),
            table@.len() == old(table)@.len(),
            forall|d: int|
                0 <= d < old(table)@.len() ==> table@[d] == (old(table)@[d] || ds.subrange(
                    0,
                    i as int,
                ).contains(d)),
        decreases digits@.len() - i,
    {
        let x = digits[i];
        table.set(x as usize, true);
        proof {
            assert forall|d: int| 0 <= d < old(table)@.len() implies table@[d] == (old(
                table,
            )@[d] || ds.subrange(0, i + 1).contains(d)) by {
                let pre = ds.subrange(0, i as int);
                let post = ds.subrange(0, i + 1);
                assert(ds[i as int] == x as int);
                assert(post =~= pre.push(x as int));
                assert(post[i as int] == x as int);
                if pre.contains(d) {
                    let k = choose|k: int| 0 <= k < pre.len() && pre[k] == d;
                    assert(post[k] == d);
                }
                if post.contains(d) && d != x as int {
                    let k = choose|k: int| 0 <= k < post.len() && post[k] == d;
                    assert(pre[k] == d);
                }
            }
        }
        i = i + 1;
    }
    assert(ds.subrange(0, digits@.len() as int) =~= ds);
}

/// The number of `true` entries.
fn count_marked(t: &Vec<bool>) -> (c: u32)
    requires
        t@.len() <= u32::MAX,
    ensures
        c as nat == marked(t@, t@.len() as int).len(),
        marked(t@, t@.len() as int).finite(),
{
    let mut c: u32 = 0;
    let mut i: usize = 0;
    assert(marked(t@, 0) =~= Set::empty());
    while i < t.len()
        invariant
            i <= t@.len() <= u32::MAX,
            c <= i,
            marked(t@, i as int).finite(),
            c as nat == marked(t@, i as int).len(),
        decreases t@.len() - i,
    {
        if t[i] {
            assert(marked(t@, i + 1) =~= marked(t@, i as int).insert(i as int));
            c = c + 1;
        } else {
            assert(marked(t@, i + 1) =~= marked(t@, i as int));
        }
        i = i + 1;
    }
    c
}

/// Get the count of unique digits in a number's sqube when represented in a specific base.
pub fn get_num_uniques(num: &BigNat, base: u32) -> (r: u32)
    requires
        base >= 2,
    ensures
        r as nat == unique_count(num@, base as nat),
{
    let ghost b = base as nat;
    let squared = nat_mul(num, num);
    let cubed = nat_mul(&squared, num);
    let d2 = squared.digits_asc(base);
    let d3 = cubed.digits_asc(base);
    let ghost ds2 = d2@.map_values(|x: u32| x as int);
    let ghost ds3 = d3@.map_values(|x: u32| x as int);
    let ghost s = sqube_digits(num@, b);
    proof {
        lemma_digits_in_range(squared@, b);
        lemma_digits_in_range(cubed@, b);
        assert(ds2 == digits_asc(num@ * num@, b));
        assert(ds3 == digits_asc(num@ * num@ * num@, b));
        assert(s == ds2 + ds3);
        assert forall|j: int| 0 <= j < d2@.len() implies (d2@[j] as int) < base by {
            assert(ds2[j] == d2@[j] as int);
        }
        assert forall|j: int| 0 <= j < d3@.len() implies (d3@[j] as int) < base by {
            assert(ds3[j] == d3@[j] as int);
        }
    }
    let mut table = new_table(base);
    mark_digits(&mut table, &d2);
    mark_digits(&mut table, &d3);
    let c = count_marked(&table);
    proof {
        lemma_sqube_digits_in_range(num@, b);
        assert forall|d: int| marked(table@, base as int).contains(d) <==> s.to_set().contains(d) by {
            if s.contains(d) {
                let k = choose|k: int| 0 <= k < s.len() && s[k] == d;
                if k < ds2.len() {
                    assert(ds2[k] == d);
                } else {
                    assert(ds3[k - ds2.len()] == d);
                }
            }
            if 0 <= d < base && (ds2.contains(d) || ds3.contains(d)) {
                if ds2.contains(d) {
                    let k = choose|k: int| 0 <= k < ds2.len() && ds2[k] == d;
                    assert(s[k] == d);
                } else {
                    let k = choose|k: int| 0 <= k < ds3.len() && ds3[k] == d;
                    assert(s[k + ds2.len()] == d);
                }
            }
        }
        assert(marked(table@, base as int) =~= s.to_set());
    }
    c
}

/// Extracts the digits of `value` one by one, marking each in `table`, and
/// stops at the first digit that is already marked. Returns whether no digit
/// repeated, counting those recorded in `seen` before the call.
fn mark_unique_digits(table: &mut Vec<bool>, value: BigNat, base: u32, Ghost(seen): Ghost<Seq<int>>) -> (ok: bool)
    requires
        base >= 2,
        old(table)@.len() == base,
        seen.no_duplicates(),
        forall|d: int| 0 <= d < base ==> old(table)@[d] == seen.contains(d),
    ensures
        final(table)@.len() == base,
        ok == (seen + digits_asc(value@, base as nat)).no_duplicates(),
        ok ==> forall|d: int|
            0 <= d < base ==> final(table)@[d] == (seen + digits_asc(value@, base as nat)).contains(d),
{
    let ghost b = base as nat;
    let ghost v = value@;
    let ghost whole = seen + digits_asc(v, b);
    let ghost mut done: Seq<int> = seen;
    let mut n = value;
    proof {
        assert(done + digits_asc(n@, b) == whole);
    }
    while !n.is_zero()
        invariant
            b == base as nat,
            base >= 2,
            table@.len() == base,
            v == value@,
            whole == seen + digits_asc(v, b),
            done + digits_asc(n@, b) == whole,
            done.no_duplicates(),
            forall|d: int| 0 <= d < base ==> table@[d] == done.contains(d),
        decreases n@,
    {
        let (q, r) = n.div_rem_u32(base);
        let ghost rest = digits_asc(q@, b);
        proof {
            assert(digits_asc(n@, b) == seq![r as int] + rest);
            assert(whole =~= done.push(r as int) + rest);
        }
        if table[r as usize] {
            proof {
                assert(done.contains(r as int));
                assert(whole == done.push(r as int) + rest);
                lemma_repeat_breaks_uniqueness(done, r as int, rest);
                assert(!whole.no_duplicates());
            }
            return false;
        }
        let ghost t0 = table@;
        table.set(r as usize, true);
        proof {
            assert(!done.contains(r as int));
            let nd = done.push(r as int);
            assert forall|d: int| 0 <= d < base implies table@[d] == nd.contains(d) by {
                if d == r as int {
                    assert(nd[done.len() as int] == d);
                } else {
                    assert(table@[d] == t0[d]);
                }
                if done.contains(d) {
                    let k = choose|k: int| 0 <= k < done.len() && done[k] == d;
                    assert(nd[k] == d);
                }
                if d != r as int && nd.contains(d) {
                    let k = choose|k: int| 0 <= k < nd.len() && nd[k] == d;
                    assert(done[k] == d);
                }
            }
            done = nd;
        }
        n = q;
    }
    proof {
        assert(digits_asc(n@, b) =~= Seq::<int>::empty());
        assert(done =~= whole);
    }
    true
}

/// Quickly determine if a number is 100% nice: no digit value occurs twice in
/// its sqube. Stops at the first repeated digit.
pub fn get_is_nice(num: &BigNat, base: u32) -> (r: bool)
    requires
        base >= 2,
    ensures
        r == is_nice(num@, base as nat),
{
    let ghost b = base as nat;
    let squared = nat_mul(num, num);
    let cubed = nat_mul(&squared, num);
    let ghost ds2 = digits_asc(squared@, b);
    let ghost ds3 = digits_asc(cubed@, b);
    proof {
        assert(sqube_digits(num@, b) == ds2 + ds3);
    }
    let mut table = new_table(base);
    proof {
        assert(Seq::<int>::empty().no_duplicates());
        assert(Seq::<int>::empty() + ds2 =~= ds2);
    }
    if !mark_unique_digits(&mut table, squared, base, Ghost(Seq::empty())) {
        proof {
            lemma_prefix_duplicate(ds2, ds3);
        }
        return false;
    }
    mark_unique_digits(&mut table, cubed, base, Ghost(ds2))
}

/// The digits of `num` in base `base`, most significant first.
pub fn number_to_base(num: &BigNat, base: u32) -> (r: Vec<u32>)
    requires
        base >= 2,
    ensures
        r@.map_values(|d: u32| d as int) == digits_asc(num@, base as nat).reverse(),
{
    let asc = num.digits_asc(base);
    let ghost ds = asc@.map_values(|d: u32| d as int);
    let mut out: Vec<u32> = Vec::new();
    let mut i: usize = asc.len();
    while i > 0
        invariant
            i <= asc@.len(),
            ds == asc@.map_values(|d: u32| d as int),
            out@.len() == asc@.len() - i,
            forall|j: int| 0 <= j < out@.len() ==> out@[j] == asc@[asc@.len() - 1 - j],
        decreases i,
    {
        i = i - 1;
        out.push(asc[i]);
    }
    assert(out@.map_values(|d: u32| d as int) =~= ds.reverse());
    out
}

} // verus!
