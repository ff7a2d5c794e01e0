//! Statistical helpers shared by the audio and chat detectors: integer
//! square root, sorting, median, percentile and population standard
//! deviation over unsigned sample values.

use vstd::prelude::*;
use vstd::relations::{sorted_by, total_ordering};
use vstd::seq_lib::group_to_multiset_ensures;
use vstd::seq_lib::lemma_sorted_unique;

verus! {

/// Largest `r` with `r * r <= n`, defined by recursion on `n`.
pub open spec fn sqrt_floor(n: nat) -> nat
    decreases n,
{
    if n == 0 {
        0
    } else {
        let r = sqrt_floor((n - 1) as nat);
        if (r + 1) * (r + 1) <= n {
            r + 1
        } else {
            r
        }
    }
}

pub proof fn lemma_sqrt_floor_bounds(n: nat)
    ensures
        sqrt_floor(n) * sqrt_floor(n) <= n,
        n < (sqrt_floor(n) + 1) * (sqrt_floor(n) + 1),
        sqrt_floor(n) <= n,
    decreases n,
{
    if n > 0 {
        lemma_sqrt_floor_bounds((n - 1) as nat);
        let r = sqrt_floor((n - 1) as nat);
        assert(sqrt_floor(n) == if (r + 1) * (r + 1) <= n { r + 1 } else { r });
        assert(r * r <= n - 1);
        assert((n - 1) < (r + 1) * (r + 1));
        if (r + 1) * (r + 1) <= n {
            assert(sqrt_floor(n) == r + 1);
            assert(n < (r + 2) * (r + 2)) by (nonlinear_arith)
                requires n <= (r + 1) * (r + 1) + 1, r >= 0
            ;
            assert((sqrt_floor(n) + 1) * (sqrt_floor(n) + 1) == (r + 2) * (r + 2))
                by (nonlinear_arith)
                requires sqrt_floor(n) == r + 1
            ;
        } else {
            assert(sqrt_floor(n) == r);
            assert(n < (r + 1) * (r + 1));
            assert((sqrt_floor(n) + 1) * (sqrt_floor(n) + 1) == (r + 1) * (r + 1))
                by (nonlinear_arith)
                requires sqrt_floor(n) == r
            ;
        }
    } else {
        assert(sqrt_floor(0) == 0);
        assert((sqrt_floor(n) + 1) * (sqrt_floor(n) + 1) == 1) by (nonlinear_arith)
            requires sqrt_floor(n) == 0
        ;
    }
}

/// Any `r` with `r * r <= n < (r + 1) * (r + 1)` is `sqrt_floor(n)`.
pub proof fn lemma_sqrt_floor_unique(n: nat, r: nat)
    requires
        r * r <= n,
        n < (r + 1) * (r + 1),
    ensures
        r == sqrt_floor(n),
{
    lemma_sqrt_floor_bounds(n);
    let s = sqrt_floor(n);
    if r < s {
        assert((r + 1) * (r + 1) <= s * s) by (nonlinear_arith)
            requires r + 1 <= s
        ;
    }
    if s < r {
        assert((s + 1) * (s + 1) <= r * r) by (nonlinear_arith)
            requires s + 1 <= r
        ;
    }
}

/// Integer square root by binary search.
pub fn isqrt(n: u64) -> (r: u64)
    ensures
        r == sqrt_floor(n as nat),
{
    let mut lo: u64 = 0;
    let mut hi: u64 = 0x1_0000_0000;
    assert((0x1_0000_0000u64 as nat) * (0x1_0000_0000u64 as nat) > u64::MAX as nat)
        by (nonlinear_arith);
    while lo + 1 < hi
        invariant
            lo < hi <= 0x1_0000_0000,
            (lo as nat) * (lo as nat) <= n as nat,
            (n as nat) < (hi as nat) * (hi as nat),
        decreases hi - lo,
    {
        let mid: u64 = lo + (hi - lo) / 2;
        proof {
            assert((mid as nat) * (mid as nat) <= 0xFFFF_FFFF_FFFF_FFFF_FFFF_FFFF_FFFF_FFFFnat)
                by (nonlinear_arith)
                requires mid <= 0x1_0000_0000u64
            ;
        }
        let sq: u128 = (mid as u128) * (mid as u128);
        if sq <= n as u128 {
            lo = mid;
        } else {
            hi = mid;
        }
    }
    proof {
        lemma_sqrt_floor_unique(n as nat, lo as nat);
    }
    lo
}

/// A sequence sorted in non-decreasing order.
pub open spec fn sorted(s: Seq<u64>) -> bool {
    forall|i: int, j: int| 0 <= i < j < s.len() ==> #[trigger] s[i] <= #[trigger] s[j]
}

/// `x` placed at its position in an already sorted sequence.
pub open spec fn insert_sorted(x: u64, s: Seq<u64>) -> Seq<u64>
    decreases s.len(),
{
    if s.len() == 0 {
        seq![x]
    } else if x <= s[0] {
        seq![x] + s
    } else {
        seq![s[0]] + insert_sorted(x, s.drop_first())
    }
}

/// The unique non-decreasing reordering of a sequence.
pub open spec fn sorted_version(s: Seq<u64>) -> Seq<u64>
    decreases s.len(),
{
    if s.len() == 0 {
        s
    } else {
        insert_sorted(s[0], sorted_version(s.drop_first()))
    }
}

proof fn lemma_insert_sorted_ensures(x: u64, s: Seq<u64>)
    requires
        sorted(s),
    ensures
        sorted(insert_sorted(x, s)),
        insert_sorted(x, s).to_multiset() == s.to_multiset().insert(x),
        insert_sorted(x, s).len() == s.len() + 1,
    decreases s.len(),
{
    broadcast use group_to_multiset_ensures;

    let r = insert_sorted(x, s);
    if s.len() == 0 {
        assert(r =~= Seq::<u64>::empty().push(x));
        assert(Seq::<u64>::empty().push(x).to_multiset() =~= s.to_multiset().insert(x));
    } else if x <= s[0] {
        assert(r =~= s.insert(0, x));
        lemma_insert_to_multiset(s, 0, x);
        assert(forall|i: int, j: int| 0 <= i < j < r.len() ==> #[trigger] r[i] <= #[trigger] r[j]);
    } else {
        let tail = s.drop_first();
        assert(sorted(tail));
        lemma_insert_sorted_ensures(x, tail);
        let rt = insert_sorted(x, tail);
        assert(r =~= rt.insert(0, s[0]));
        lemma_insert_to_multiset(rt, 0, s[0]);
        assert(tail =~= s.remove(0));
        assert(tail.to_multiset() =~= s.to_multiset().remove(s[0]));
        assert(r.to_multiset() =~= s.to_multiset().insert(x)) by {
            assert(r.to_multiset() =~= tail.to_multiset().insert(x).insert(s[0]));
            assert(s.to_multiset().count(s[0]) > 0) by {
                assert(s.contains(s[0]));
            }
            assert(tail.to_multiset().insert(x).insert(s[0]) =~= s.to_multiset().insert(x));
        }
        assert(sorted(r)) by {
            assert(forall|i: int| 0 <= i < rt.len() ==> #[trigger] rt[i] == r[i + 1]);
            assert(forall|j: int| 1 <= j < r.len() ==> s[0] <= #[trigger] r[j]) by {
                assert forall|j: int| 1 <= j < r.len() implies s[0] <= #[trigger] r[j] by {
                    assert(rt.contains(rt[j - 1]));
                    assert(rt.to_multiset().count(rt[j - 1]) > 0);
                    if rt[j - 1] != x {
                        assert(tail.to_multiset().count(rt[j - 1]) > 0);
                        assert(tail.contains(rt[j - 1]));
                        let k = choose|k: int| 0 <= k < tail.len() && tail[k] == rt[j - 1];
                        assert(s[k + 1] == tail[k]);
                    }
                }
            }
        }
    }
}

pub proof fn lemma_sorted_version_ensures(s: Seq<u64>)
    ensures
        sorted(sorted_version(s)),
        sorted_version(s).to_multiset() == s.to_multiset(),
        sorted_version(s).len() == s.len(),
    decreases s.len(),
{
    broadcast use group_to_multiset_ensures;

    if s.len() > 0 {
        let tail = s.drop_first();
        lemma_sorted_version_ensures(tail);
        lemma_insert_sorted_ensures(s[0], sorted_version(tail));
        assert(tail =~= s.remove(0));
        assert(tail.to_multiset() =~= s.to_multiset().remove(s[0]));
        assert(s.contains(s[0]));
        assert(s.to_multiset().count(s[0]) > 0);
        assert(s.to_multiset().remove(s[0]).insert(s[0]) =~= s.to_multiset());
    }
}

/// Every element of the sorted reordering occurs in the original.
pub proof fn lemma_sorted_version_members(s: Seq<u64>)
    ensures
        forall|i: int| 0 <= i < sorted_version(s).len() ==> s.contains(
            #[trigger] sorted_version(s)[i],
        ),
{
    broadcast use group_to_multiset_ensures;

    lemma_sorted_version_ensures(s);
    let t = sorted_version(s);
    assert forall|i: int| 0 <= i < t.len() implies s.contains(#[trigger] t[i]) by {
        assert(t.contains(t[i]));
        assert(t.to_multiset().count(t[i]) > 0);
        assert(s.to_multiset().count(t[i]) > 0);
    }
}

/// Two sorted sequences over the same value multiset are equal.
pub proof fn lemma_sorted_same_multiset_eq(x: Seq<u64>, y: Seq<u64>)
    requires
        sorted(x),
        sorted(y),
        x.to_multiset() == y.to_multiset(),
    ensures
        x == y,
{
    let leq = |a: u64, b: u64| a <= b;
    assert(total_ordering(leq)) by {
        assert(forall|a: u64| #[trigger] leq(a, a));
        assert(forall|a: u64, b: u64| #[trigger] leq(a, b) && #[trigger] leq(b, a) ==> a == b);
        assert(forall|a: u64, b: u64, c: u64|
            #[trigger] leq(a, b) && #[trigger] leq(b, c) ==> leq(a, c));
        assert(forall|a: u64, b: u64| #[trigger] leq(a, b) || #[trigger] leq(b, a));
    }
    assert(sorted_by(x, leq));
    assert(sorted_by(y, leq));
    lemma_sorted_unique(x, y, leq);
}

proof fn lemma_insert_to_multiset(s: Seq<u64>, j: int, x: u64)
    requires
        0 <= j <= s.len(),
    ensures
        s.insert(j, x).to_multiset() == s.to_multiset().insert(x),
{
    broadcast use group_to_multiset_ensures;

    let t = s.insert(j, x);
    assert(t.remove(j) =~= s);
    assert(t.remove(j).to_multiset() =~= t.to_multiset().remove(t[j]));
    assert(t[j] == x);
    assert(t.to_multiset().count(x) > 0) by {
        assert(t.contains(x));
    }
    assert(t.to_multiset().remove(x).insert(x) =~= t.to_multiset());
}

/// Sort a vector of values in non-decreasing order (insertion sort).
pub fn sort_values(v: &mut Vec<u64>)
    ensures
        final(v)@ == sorted_version(old(v)@),
{
    let mut i: usize = 0;
    while i < v.len()
        invariant
            i <= v.len(),
            v@.len() == old(v)@.len(),
            sorted(v@.subrange(0, i as int)),
            v@.to_multiset() == old(v)@.to_multiset(),
        decreases v.len() - i,
    {
        let x = v.remove(i);
        let ghost s_rem = v@;
        let mut j: usize = 0;
        while j < i && v[j] <= x
            invariant
                j <= i <= v@.len(),
                v@ == s_rem,
                forall|k: int| 0 <= k < j ==> #[trigger] v@[k] <= x,
            decreases i - j,
        {
            j += 1;
        }
        v.insert(j, x);
        proof {
            broadcast use group_to_multiset_ensures;

            let ghost s_before = s_rem.insert(i as int, x);
            assert(s_before.remove(i as int) =~= s_rem);
            lemma_insert_to_multiset(s_rem, j as int, x);
            assert(s_rem.to_multiset() =~= s_before.to_multiset().remove(x)) by {
                assert(s_before[i as int] == x);
                assert(s_before.remove(i as int).to_multiset() =~= s_before.to_multiset().remove(
                    s_before[i as int],
                ));
            }
            assert(v@.to_multiset() =~= s_before.to_multiset()) by {
                assert(s_before.contains(x)) by {
                    assert(s_before[i as int] == x);
                }
                assert(s_before.to_multiset().count(x) > 0);
                assert(s_before.to_multiset().remove(x).insert(x) =~= s_before.to_multiset());
            }
            assert(sorted(v@.subrange(0, i as int + 1))) by {
                let pre = s_rem.subrange(0, i as int);
                let cur = v@.subrange(0, i as int + 1);
                assert(forall|k: int| 0 <= k < j ==> cur[k] == pre[k]);
                assert(cur[j as int] == x);
                assert(forall|k: int| j < k <= i ==> cur[k] == pre[k - 1]);
                assert(forall|k: int| j as int <= k < i ==> x <= pre[k]) by {
                    if j < i {
                        assert(!(s_rem[j as int] <= x));
                        assert(forall|k: int| j as int <= k < i ==> pre[j as int] <= #[trigger] pre[k]);
                    }
                }
            }
        }
        i += 1;
    }
    proof {
        assert(v@.subrange(0, v@.len() as int) =~= v@);
        lemma_sorted_version_ensures(old(v)@);
        lemma_sorted_same_multiset_eq(v@, sorted_version(old(v)@));
    }
}

/// The median of a value sequence: with the values in sorted order, the
/// middle element for odd counts, the floored mean of the two middle
/// elements for even counts, and 0 for no values.
pub open spec fn median_spec(s: Seq<u64>) -> int {
    let t = sorted_version(s);
    let n = t.len() as int;
    if n == 0 {
        0
    } else if n % 2 == 0 {
        (t[n / 2 - 1] + t[n / 2]) / 2
    } else {
        t[n / 2] as int
    }
}

/// Median of the values; callers feed scaled units so that the halved
/// midpoint of an even count stays exact.
pub fn median(values: &Vec<u64>) -> (r: u64)
    ensures
        r == median_spec(values@),
{
    let mut sorted_vals = values.clone();
    proof {
        assert(sorted_vals@ =~= values@);
    }
    sort_values(&mut sorted_vals);
    proof {
        lemma_sorted_version_ensures(values@);
    }
    let n = sorted_vals.len();
    if n == 0 {
        0
    } else if n % 2 == 0 {
        let a = sorted_vals[n / 2 - 1];
        let b = sorted_vals[n / 2];
        let r = a / 2 + b / 2 + (a % 2 + b % 2) / 2;
        proof {
            assert(r == (a + b) / 2) by (nonlinear_arith)
                requires r == a / 2 + b / 2 + (a % 2 + b % 2) / 2
            ;
        }
        r
    } else {
        sorted_vals[n / 2]
    }
}

/// The value at rank `percentile` of the values in sorted order:
/// index `percentile * (len - 1) / 100`, and 0 for no values.
pub open spec fn percentile_spec(s: Seq<u64>, percentile: int) -> int {
    let t = sorted_version(s);
    let n = t.len() as int;
    if n == 0 {
        0
    } else {
        t[percentile * (n - 1) / 100] as int
    }
}

/// Value at the given percentile (0..=100) of the values.
pub fn percentile_value(values: &Vec<u64>, percentile: u64) -> (r: u64)
    requires
        percentile <= 100,
    ensures
        r == percentile_spec(values@, percentile as int),
{
    let mut sorted_vals = values.clone();
    proof {
        assert(sorted_vals@ =~= values@);
    }
    sort_values(&mut sorted_vals);
    proof {
        lemma_sorted_version_ensures(values@);
    }
    let n = sorted_vals.len();
    if n == 0 {
        0
    } else {
        proof {
            assert(0 <= percentile * (n - 1) <= 100 * (n - 1)) by (nonlinear_arith)
                requires percentile <= 100, n >= 1
            ;
            assert(0 <= percentile * (n - 1) / 100 < n) by (nonlinear_arith)
                requires 0 <= percentile * (n - 1) <= 100 * (n - 1), n >= 1
            ;
        }
        let num: u128 = (percentile as u128) * ((n - 1) as u128);
        let index = (num / 100) as usize;
        sorted_vals[index]
    }
}

/// Sum of squared deviations of the values from `mean`.
pub open spec fn sum_sq_dev(s: Seq<u64>, mean: int) -> int
    decreases s.len(),
{
    if s.len() == 0 {
        0
    } else {
        sum_sq_dev(s.drop_last(), mean) + (s.last() - mean) * (s.last() - mean)
    }
}

/// The floored population standard deviation around `mean`: the integer
/// square root of the floored mean of squared deviations, and 0 for no
/// values.
pub open spec fn std_dev_spec(s: Seq<u64>, mean: int) -> int {
    if s.len() == 0 {
        0
    } else {
        sqrt_floor((sum_sq_dev(s, mean) / s.len() as int) as nat) as int
    }
}

pub proof fn lemma_sum_sq_dev_bound(s: Seq<u64>, mean: int, bound: int)
    requires
        0 <= mean <= bound,
        forall|i: int| 0 <= i < s.len() ==> #[trigger] s[i] <= bound,
    ensures
        0 <= sum_sq_dev(s, mean) <= s.len() * (bound * bound),
    decreases s.len(),
{
    if s.len() > 0 {
        let t = s.drop_last();
        lemma_sum_sq_dev_bound(t, mean, bound);
        let d = s.last() - mean;
        assert(s.last() == s[s.len() - 1]);
        assert(0 <= d * d <= bound * bound) by (nonlinear_arith)
            requires -bound <= d <= bound
        ;
        assert(sum_sq_dev(s, mean) == sum_sq_dev(t, mean) + d * d);
        assert(sum_sq_dev(t, mean) + d * d <= s.len() * (bound * bound)) by (nonlinear_arith)
            requires
                sum_sq_dev(t, mean) <= (s.len() - 1) * (bound * bound),
                d * d <= bound * bound,
                s.len() >= 1,
        ;
    }
}

/// Population standard deviation of the values around `mean`.
pub fn standard_deviation(values: &Vec<u64>, mean: u64) -> (r: u64)
    requires
        mean <= 0xFFFF_FFFF,
        forall|i: int| 0 <= i < values@.len() ==> #[trigger] values@[i] <= 0xFFFF_FFFF,
    ensures
        r == std_dev_spec(values@, mean as int),
{
    let n = values.len();
    if n == 0 {
        return 0;
    }
    let mut sum: u128 = 0;
    let mut i: usize = 0;
    proof {
        assert(values@.subrange(0, 0) =~= Seq::<u64>::empty());
    }
    while i < n
        invariant
            i <= n == values@.len(),
            mean <= 0xFFFF_FFFF,
            forall|k: int| 0 <= k < values@.len() ==> #[trigger] values@[k] <= 0xFFFF_FFFF,
            sum == sum_sq_dev(values@.subrange(0, i as int), mean as int),
            sum <= (i as int) * (0xFFFF_FFFFi128 * 0xFFFF_FFFFi128),
        decreases n - i,
    {
        proof {
            assert(values@.subrange(0, i as int + 1).drop_last() =~= values@.subrange(0, i as int));
            assert(values@.subrange(0, i as int + 1).last() == values@[i as int]);
            assert((i as int + 1) * (0xFFFF_FFFFi128 * 0xFFFF_FFFFi128) == (i as int) * (
            0xFFFF_FFFFi128 * 0xFFFF_FFFFi128) + 0xFFFF_FFFFi128 * 0xFFFF_FFFFi128)
                by (nonlinear_arith);
        }
        let v = values[i];
        let d: u64 = if v >= mean {
            v - mean
        } else {
            mean - v
        };
        proof {
            assert((d as int) * (d as int) == (values@[i as int] - mean) * (values@[i as int]
                - mean)) by (nonlinear_arith)
                requires
                    d == if values@[i as int] >= mean {
                        (values@[i as int] - mean) as int
                    } else {
                        (mean - values@[i as int]) as int
                    },
            ;
            assert((d as int) * (d as int) <= 0xFFFF_FFFFi128 * 0xFFFF_FFFFi128)
                by (nonlinear_arith)
                requires d <= 0xFFFF_FFFF
            ;
            assert(sum + (d as int) * (d as int)
                <= 0xFFFF_FFFF_FFFF_FFFF_FFFF_FFFF_FFFF_FFFFu128) by (nonlinear_arith)
                requires
                    sum <= (i as int) * (0xFFFF_FFFFi128 * 0xFFFF_FFFFi128),
                    (d as int) * (d as int) <= 0xFFFF_FFFFi128 * 0xFFFF_FFFFi128,
                    0 <= i < 0x1_0000_0000_0000_0000i128,
            ;
        }
        sum = sum + (d as u128) * (d as u128);
        i += 1;
    }
    proof {
        assert(values@.subrange(0, n as int) =~= values@);
    }
    let variance: u128 = sum / (n as u128);
    proof {
        lemma_sum_sq_dev_bound(values@, mean as int, 0xFFFF_FFFF);
        assert(variance <= 0xFFFF_FFFFi128 * 0xFFFF_FFFFi128) by (nonlinear_arith)
            requires
                variance == sum / (n as u128),
                n >= 1,
                sum <= (n as int) * (0xFFFF_FFFFi128 * 0xFFFF_FFFFi128),
        ;
    }
    isqrt(variance as u64)
}

} // verus!
