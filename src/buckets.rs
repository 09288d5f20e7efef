use vstd::prelude::*;

use crate::digits::{
    digits_value, high_value, is_digits, lemma_digits_high, lemma_digits_len, lemma_div_bounds,
    lemma_power_base_le, lemma_power_positive, mul_small, power, to_digits,
};

verus! {

/// Fee rates and bucket limits are counted in thousandths of a satoshi per vbyte:
/// a rate of `RATE_SCALE` is exactly 1 sat/vB.
pub const RATE_SCALE: u64 = 1000;

/// A configuration of the bucket limits or of the block window that cannot be used.
#[derive(Debug, Clone, Copy, PartialEq, Eq, Structural)]
pub enum ConfigError {
    InvalidBucketConfig,
}

/// The `k`-th value of the progression of limits, 1 sat/vB times
/// `(1 + p / 100)^k`, in thousandths of sat/vB, is this number divided by `100^k`.
pub open spec fn progression_numerator(increment_percent: nat, k: nat) -> nat {
    RATE_SCALE as nat * power(100 + increment_percent, k)
}

/// The `k`-th value of the progression, rounded down once to a whole thousandth.
pub open spec fn limit_value(increment_percent: nat, k: nat) -> nat {
    progression_numerator(increment_percent, k) / power(100, k)
}

/// `b` is the list of limits for `increment_percent` and `upper_limit`: the values of
/// the progression after the baseline, up to and including the first one that
/// reaches `upper_limit`.
pub open spec fn is_limit_list(increment_percent: nat, upper_limit: nat, b: Seq<u128>) -> bool {
    &&& forall|i: int| 0 <= i < b.len() ==> #[trigger] b[i] == limit_value(increment_percent, (i + 1) as nat)
    &&& forall|k: nat|
        k < b.len() ==> #[trigger] progression_numerator(increment_percent, k) < upper_limit * power(
            100,
            k,
        )
    &&& progression_numerator(increment_percent, b.len()) >= upper_limit * power(100, b.len())
}

/// Number of leading limits that do not exceed `rate`.
pub open spec fn first_above(limits: Seq<u128>, rate: u128) -> nat
    decreases limits.len(),
{
    if limits.len() == 0 {
        0
    } else if limits[0] > rate {
        0
    } else {
        1 + first_above(limits.drop_first(), rate)
    }
}

/// The bucket of `rate`: the index of the first limit strictly above it, or the
/// last index when no limit is above it.
pub open spec fn bucket_index(limits: Seq<u128>, rate: u128) -> int {
    if first_above(limits, rate) < limits.len() {
        first_above(limits, rate) as int
    } else {
        limits.len() - 1
    }
}

/// The histogram of `rates`: one count per limit, each rate counted in its bucket.
pub open spec fn tally(limits: Seq<u128>, rates: Seq<u128>) -> Seq<int>
    decreases rates.len(),
{
    if rates.len() == 0 {
        Seq::new(limits.len(), |i: int| 0int)
    } else {
        let h = tally(limits, rates.drop_last());
        let k = bucket_index(limits, rates.last());
        h.update(k, h[k] + 1)
    }
}

pub open spec fn sum(s: Seq<int>) -> int
    decreases s.len(),
{
    if s.len() == 0 {
        0
    } else {
        sum(s.drop_last()) + s.last()
    }
}

pub open spec fn as_ints(s: Seq<u64>) -> Seq<int> {
    s.map_values(|c: u64| c as int)
}

proof fn lemma_numerator_floor(p: nat, k: nat)
    ensures
        progression_numerator(p, k) >= RATE_SCALE * power(100, k),
        power(100, k) > 0,
        progression_numerator(p, k + 1) == progression_numerator(p, k) * (100 + p),
        power(100, k + 1) == 100 * power(100, k),
{
    lemma_power_base_le(100, 100 + p, k);
    lemma_power_positive(100, k);
    let a = power(100, k);
    let b = power(100 + p, k);
    assert(RATE_SCALE * b >= RATE_SCALE * a) by (nonlinear_arith)
        requires
            b >= a,
    ;
    assert(power(100 + p, k + 1) == (100 + p) * b);
    assert(RATE_SCALE * ((100 + p) * b) == (RATE_SCALE * b) * (100 + p)) by (nonlinear_arith);
}

/// Each limit is at least 1 sat/vB, and the next one is larger.
proof fn lemma_limit_step(p: nat, k: nat)
    requires
        p > 0,
    ensures
        limit_value(p, k) >= RATE_SCALE,
        limit_value(p, k + 1) > limit_value(p, k),
{
    lemma_numerator_floor(p, k);
    let n = progression_numerator(p, k) as int;
    let d = power(100, k) as int;
    lemma_div_bounds(n, d, RATE_SCALE as int);
    let q = n / d;
    let n2 = progression_numerator(p, k + 1) as int;
    let d2 = power(100, k + 1) as int;
    assert((q + 10) * d2 <= n2) by (nonlinear_arith)
        requires
            q * d <= n,
            q >= 1000,
            p >= 1,
            d > 0,
            n2 == n * (100 + p),
            d2 == 100 * d,
    ;
    lemma_div_bounds(n2, d2, q + 10);
}

proof fn lemma_limit_increasing(p: nat, j: nat, k: nat)
    requires
        p > 0,
        j < k,
    ensures
        limit_value(p, j) < limit_value(p, k),
    decreases k - j,
{
    lemma_limit_step(p, j);
    if j + 1 < k {
        lemma_limit_increasing(p, j + 1, k);
    }
}

/// Whether the `k`-th value of the progression is below `upper`, read on its
/// rounded value.
proof fn lemma_limit_below(p: nat, k: nat, upper: nat)
    ensures
        (limit_value(p, k) < upper) == (progression_numerator(p, k) < upper * power(100, k)),
{
    lemma_numerator_floor(p, k);
    lemma_div_bounds(progression_numerator(p, k) as int, power(100, k) as int, upper as int);
}

/// For a positive increment and a limit above the baseline, the list of limits is
/// strictly increasing, and its last element is the first value of the
/// progression that reaches `upper_limit`.
pub proof fn lemma_limit_list_shape(increment_percent: nat, upper_limit: nat, b: Seq<u128>)
    requires
        increment_percent > 0,
        upper_limit > RATE_SCALE,
        is_limit_list(increment_percent, upper_limit, b),
    ensures
        b.len() > 0,
        forall|i: int, j: int| 0 <= i < j < b.len() ==> b[i] < b[j],
        b[b.len() - 1] >= upper_limit,
        forall|i: int| 0 <= i < b.len() - 1 ==> b[i] < upper_limit,
{
    let p = increment_percent;
    assert(power(100 + p, 0) == 1 && power(100, 0) == 1);
    assert(progression_numerator(p, 0) == RATE_SCALE);
    assert(b.len() > 0);
    assert forall|i: int, j: int| 0 <= i < j < b.len() implies b[i] < b[j] by {
        lemma_limit_increasing(p, (i + 1) as nat, (j + 1) as nat);
    }
    lemma_limit_below(p, b.len(), upper_limit);
    assert forall|i: int| 0 <= i < b.len() - 1 implies b[i] < upper_limit by {
        lemma_limit_below(p, (i + 1) as nat, upper_limit);
        assert(progression_numerator(p, (i + 1) as nat) < upper_limit * power(100, (i + 1) as nat));
    }
}

/// Builds the ascending bucket limits: starting from 1 sat/vB, multiply by
/// `1 + increment_percent / 100` and append, until the value reaches `upper_limit`
/// (in thousandths of sat/vB). The progression is carried exactly; each limit is
/// rounded down to a whole thousandth once. A zero increment (which would never
/// reach the limit) or a zero limit is refused.
pub fn create_buckets_limits(increment_percent: u32, upper_limit: u64) -> (r: Result<
    Vec<u128>,
    ConfigError,
>)
    ensures
        match r {
            Ok(b) => increment_percent > 0 && upper_limit > 0 && is_limit_list(
                increment_percent as nat,
                upper_limit as nat,
                b@,
            ),
            Err(e) => (increment_percent == 0 || upper_limit == 0) && e
                == ConfigError::InvalidBucketConfig,
        },
{
    if increment_percent == 0 || upper_limit == 0 {
        return Err(ConfigError::InvalidBucketConfig);
    }
    let ghost p = increment_percent as nat;
    let ghost upper = upper_limit as nat;
    let multiplier: u64 = 100 + increment_percent as u64;
    let mut limits: Vec<u128> = Vec::new();
    // the numerator of the progression's current value, over 100^limits.len()
    let mut numerator = to_digits(RATE_SCALE);
    let mut current: u128 = RATE_SCALE as u128;
    proof {
        assert(power(100 + p, 0) == 1 && power(100, 0) == 1);
        assert(limit_value(p, 0) == RATE_SCALE);
    }
    while current < upper_limit as u128
        invariant
            p > 0,
            p == increment_percent,
            upper == upper_limit,
            multiplier == 100 + p,
            is_digits(numerator@),
            digits_value(numerator@) == progression_numerator(p, limits.len() as nat),
            current == limit_value(p, limits.len() as nat),
            forall|i: int|
                0 <= i < limits.len() ==> #[trigger] limits[i] == limit_value(p, (i + 1) as nat),
            forall|k: nat|
                k < limits.len() ==> #[trigger] progression_numerator(p, k) < upper * power(
                    100,
                    k,
                ),
        decreases
                if current < upper_limit {
                    upper_limit - current
                } else {
                    0
                },
    {
        let ghost k = limits.len() as nat;
        proof {
            lemma_limit_step(p, k);
            lemma_limit_below(p, k, upper);
            lemma_numerator_floor(p, k);
            lemma_numerator_floor(p, k + 1);
            let n = progression_numerator(p, k) as int;
            let d = power(100, k) as int;
            let n2 = progression_numerator(p, k + 1) as int;
            let d2 = power(100, k + 1) as int;
            let bound = (upper * (100 + p)) as int;
            assert(n2 < bound * d2) by (nonlinear_arith)
                requires
                    bound == upper * (100 + p),
                    upper >= 0,
                    n >= 0,
                    n < upper * d,
                    n2 == n * (100 + p),
                    d2 == 100 * d,
                    d > 0,
                    p > 0,
            ;
            lemma_div_bounds(n2, d2, bound as int);
            assert(bound <= 0x1_0000_0000_0000_0000 * 0x2_0000_0000) by (nonlinear_arith)
                requires
                    bound == upper * (100 + p),
                    upper < 0x1_0000_0000_0000_0000,
                    p < 0x1_0000_0000,
            ;
            assert(n2 >= 1000 * d2);
            assert(d2 >= power(100, k + 1));
        }
        numerator = mul_small(&numerator, multiplier);
        proof {
            lemma_digits_len(numerator@, k + 1);
            lemma_digits_high(numerator@, (k + 1) as int);
        }
        current = high_value(&numerator, limits.len() + 1);
        limits.push(current);
        proof {
            assert(limits@[limits.len() - 1] == limit_value(p, limits.len() as nat));
        }
    }
    proof {
        lemma_limit_below(p, limits.len() as nat, upper);
    }
    Ok(limits)
}

proof fn lemma_first_above(limits: Seq<u128>, rate: u128)
    ensures
        first_above(limits, rate) <= limits.len(),
        forall|j: int| 0 <= j < first_above(limits, rate) ==> limits[j] <= rate,
        first_above(limits, rate) < limits.len() ==> limits[first_above(limits, rate) as int]
            > rate,
    decreases limits.len(),
{
    if limits.len() > 0 && limits[0] <= rate {
        lemma_first_above(limits.drop_first(), rate);
        assert forall|j: int| 0 <= j < first_above(limits, rate) implies limits[j] <= rate by {
            if j > 0 {
                assert(limits[j] == limits.drop_first()[j - 1]);
            }
        }
    }
}

/// Index of the first limit strictly greater than `rate`; the last index (the
/// overflow bucket) when none is.
pub fn classify(rate: u128, limits: &Vec<u128>) -> (r: usize)
    requires
        limits.len() > 0,
    ensures
        r == bucket_index(limits@, rate),
        r < limits.len(),
{
    proof {
        lemma_first_above(limits@, rate);
    }
    let mut i: usize = 0;
    while i < limits.len() && limits[i] <= rate
        invariant
            i <= limits.len(),
            forall|j: int| 0 <= j < i ==> limits@[j] <= rate,
            first_above(limits@, rate) <= limits.len(),
            forall|j: int| 0 <= j < first_above(limits@, rate) ==> limits@[j] <= rate,
            first_above(limits@, rate) < limits.len() ==> limits@[first_above(limits@, rate) as int]
                > rate,
        decreases limits.len() - i,
    {
        i = i + 1;
    }
    if i < limits.len() {
        i
    } else {
        limits.len() - 1
    }
}

/// Every rate has a bucket among the limits.
pub proof fn lemma_bucket_in_range(limits: Seq<u128>, rate: u128)
    requires
        limits.len() > 0,
    ensures
        0 <= bucket_index(limits, rate) < limits.len(),
{
    lemma_first_above(limits, rate);
}

/// The bucket of a rate never decreases as the rate grows, whatever the limits.
pub proof fn lemma_classify_monotonic(limits: Seq<u128>, rate1: u128, rate2: u128)
    requires
        limits.len() > 0,
        rate1 <= rate2,
    ensures
        bucket_index(limits, rate1) <= bucket_index(limits, rate2),
{
    lemma_first_above(limits, rate1);
    lemma_first_above(limits, rate2);
}

pub proof fn lemma_sum_update(s: Seq<int>, k: int, v: int)
    requires
        0 <= k < s.len(),
    ensures
        sum(s.update(k, v)) == sum(s) - s[k] + v,
    decreases s.len(),
{
    let t = s.update(k, v);
    if k < s.len() - 1 {
        lemma_sum_update(s.drop_last(), k, v);
        assert(t.drop_last() =~= s.drop_last().update(k, v));
    } else {
        assert(t.drop_last() =~= s.drop_last());
    }
}

pub proof fn lemma_sum_zeros(n: nat)
    ensures
        sum(Seq::new(n, |i: int| 0int)) == 0,
    decreases n,
{
    if n > 0 {
        lemma_sum_zeros((n - 1) as nat);
        assert(Seq::new(n, |i: int| 0int).drop_last() =~= Seq::new((n - 1) as nat, |i: int| 0int));
    }
}

pub proof fn lemma_sum_bound(s: Seq<int>, i: int)
    requires
        0 <= i < s.len(),
        forall|j: int| 0 <= j < s.len() ==> #[trigger] s[j] >= 0,
    ensures
        s[i] <= sum(s),
    decreases s.len(),
{
    if s.len() > 0 {
        assert forall|j: int| 0 <= j < s.len() - 1 implies #[trigger] s.drop_last()[j] >= 0 by {
            assert(s.drop_last()[j] == s[j]);
        }
        if i < s.len() - 1 {
            lemma_sum_bound(s.drop_last(), i);
            assert(s.drop_last()[i] == s[i]);
        }
        lemma_sum_nonneg(s.drop_last());
    }
}

pub proof fn lemma_sum_nonneg(s: Seq<int>)
    requires
        forall|j: int| 0 <= j < s.len() ==> #[trigger] s[j] >= 0,
    ensures
        sum(s) >= 0,
    decreases s.len(),
{
    if s.len() > 0 {
        assert forall|j: int| 0 <= j < s.len() - 1 implies #[trigger] s.drop_last()[j] >= 0 by {
            assert(s.drop_last()[j] == s[j]);
        }
        lemma_sum_nonneg(s.drop_last());
    }
}

/// The histogram has one slot per limit, and its counts add up to the number of
/// rates.
pub proof fn lemma_tally_total(limits: Seq<u128>, rates: Seq<u128>)
    requires
        limits.len() > 0,
    ensures
        tally(limits, rates).len() == limits.len(),
        sum(tally(limits, rates)) == rates.len(),
        forall|i: int| 0 <= i < limits.len() ==> #[trigger] tally(limits, rates)[i] >= 0,
    decreases rates.len(),
{
    lemma_first_above(limits, rates.last());
    if rates.len() == 0 {
        lemma_sum_zeros(limits.len());
    } else {
        lemma_tally_total(limits, rates.drop_last());
        let h = tally(limits, rates.drop_last());
        let k = bucket_index(limits, rates.last());
        lemma_sum_update(h, k, h[k] + 1);
    }
}

/// How many of `rates` are below `x`.
pub open spec fn count_below(rates: Seq<u128>, x: u128) -> nat
    decreases rates.len(),
{
    if rates.len() == 0 {
        0
    } else if rates.last() < x {
        count_below(rates.drop_last(), x) + 1
    } else {
        count_below(rates.drop_last(), x)
    }
}

pub open spec fn strictly_increasing(limits: Seq<u128>) -> bool {
    forall|i: int, j: int| 0 <= i < j < limits.len() ==> limits[i] < limits[j]
}

/// With increasing limits, a rate falls in one of the first `j + 1` buckets exactly
/// when it is below limit `j` (for any limit but the last).
proof fn lemma_bucket_at_most(limits: Seq<u128>, rate: u128, j: int)
    requires
        strictly_increasing(limits),
        0 <= j < limits.len() - 1,
    ensures
        (bucket_index(limits, rate) <= j) == (rate < limits[j]),
{
    lemma_first_above(limits, rate);
    let fa = first_above(limits, rate) as int;
    if rate < limits[j] {
        if fa > j {
            assert(limits[j] <= rate);
        }
    } else {
        if fa <= j && fa < limits.len() {
            if fa < j {
                assert(limits[fa] < limits[j]);
            }
        }
    }
}

/// With increasing limits, the counts of buckets `0..=j` add up to the number of
/// rates below limit `j` (for any limit but the last, whose bucket also takes the
/// rates above it).
pub proof fn lemma_tally_cumulative(limits: Seq<u128>, rates: Seq<u128>, j: int)
    requires
        strictly_increasing(limits),
        0 <= j < limits.len() - 1,
    ensures
        sum(tally(limits, rates).subrange(0, j + 1)) == count_below(rates, limits[j]),
    decreases rates.len(),
{
    if rates.len() == 0 {
        assert(tally(limits, rates).subrange(0, j + 1) =~= Seq::new((j + 1) as nat, |i: int| 0int));
        lemma_sum_zeros((j + 1) as nat);
    } else {
        let rest = rates.drop_last();
        lemma_tally_cumulative(limits, rest, j);
        lemma_tally_total(limits, rest);
        let h = tally(limits, rest);
        let r = rates.last();
        let k = bucket_index(limits, r);
        lemma_bucket_in_range(limits, r);
        lemma_bucket_at_most(limits, r, j);
        let prefix = h.subrange(0, j + 1);
        if k <= j {
            assert(h.update(k, h[k] + 1).subrange(0, j + 1) =~= prefix.update(k, h[k] + 1));
            lemma_sum_update(prefix, k, h[k] + 1);
        } else {
            assert(h.update(k, h[k] + 1).subrange(0, j + 1) =~= prefix);
        }
    }
}

/// `n` zero counts.
pub(crate) fn zeros(n: usize) -> (r: Vec<u64>)
    ensures
        r@.len() == n,
        forall|i: int| 0 <= i < n ==> r@[i] == 0,
{
    let mut r: Vec<u64> = Vec::new();
    let mut k: usize = 0;
    while k < n
        invariant
            k <= n,
            r@.len() == k,
            forall|i: int| 0 <= i < k ==> r@[i] == 0,
        decreases n - k,
    {
        r.push(0);
        k = k + 1;
    }
    r
}

} // verus!
