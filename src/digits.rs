use vstd::prelude::*;

use vstd::arithmetic::div_mod::{
    lemma_fundamental_div_mod, lemma_fundamental_div_mod_converse_div, lemma_mod_pos_bound,
};

verus! {

// Natural numbers too large for a machine word, written as base-100 digits, least
// significant first. Dividing such a number by a power of 100 drops its lowest
// digits, with no rounding along the way.

pub open spec fn power(b: nat, e: nat) -> nat
    decreases e,
{
    if e == 0 {
        1
    } else {
        b * power(b, (e - 1) as nat)
    }
}

pub open spec fn is_digits(d: Seq<u64>) -> bool {
    forall|i: int| 0 <= i < d.len() ==> #[trigger] d[i] < 100
}

/// The number that the digits `d` write.
pub open spec fn digits_value(d: Seq<u64>) -> nat
    decreases d.len(),
{
    if d.len() == 0 {
        0
    } else {
        digits_value(d.drop_last()) + power(100, (d.len() - 1) as nat) * (d.last() as nat)
    }
}

pub proof fn lemma_power_positive(b: nat, e: nat)
    requires
        b > 0,
    ensures
        power(b, e) > 0,
    decreases e,
{
    if e > 0 {
        lemma_power_positive(b, (e - 1) as nat);
        assert(b * power(b, (e - 1) as nat) > 0) by (nonlinear_arith)
            requires
                b > 0,
                power(b, (e - 1) as nat) > 0,
        ;
    }
}

pub proof fn lemma_power_adds(b: nat, x: nat, y: nat)
    ensures
        power(b, x + y) == power(b, x) * power(b, y),
    decreases y,
{
    if y > 0 {
        let y1 = (y - 1) as nat;
        lemma_power_adds(b, x, y1);
        let px = power(b, x);
        let py1 = power(b, y1);
        assert(power(b, y) == b * py1);
        assert(power(b, x + y1) == px * py1);
        assert(x + y1 + 1 == x + y);
        assert(power(b, x + y) == b * power(b, x + y1));
        assert(b * (px * py1) == px * (b * py1)) by (nonlinear_arith);
        assert(power(b, x + y) == px * power(b, y));
    } else {
        assert(power(b, y) == 1);
        assert(power(b, x) * 1 == power(b, x));
        assert(power(b, x + y) == power(b, x) * power(b, y));
    }
}

/// A larger base gives a larger power.
pub proof fn lemma_power_base_le(a: nat, b: nat, e: nat)
    requires
        a <= b,
    ensures
        power(a, e) <= power(b, e),
    decreases e,
{
    if e > 0 {
        lemma_power_base_le(a, b, (e - 1) as nat);
        let pa = power(a, (e - 1) as nat);
        let pb = power(b, (e - 1) as nat);
        assert(a * pa <= b * pb) by (nonlinear_arith)
            requires
                a <= b,
                pa <= pb,
        ;
    }
}

/// A larger exponent gives a larger power of a base above one.
pub proof fn lemma_power_exp_le(b: nat, x: nat, y: nat)
    requires
        b > 0,
        x <= y,
    ensures
        power(b, x) <= power(b, y),
{
    lemma_power_adds(b, x, (y - x) as nat);
    lemma_power_positive(b, (y - x) as nat);
    lemma_power_positive(b, x);
    let px = power(b, x);
    let pd = power(b, (y - x) as nat);
    assert(px <= px * pd) by (nonlinear_arith)
        requires
            px > 0,
            pd > 0,
    ;
}

/// `n / d` against a bound `b`.
pub proof fn lemma_div_bounds(n: int, d: int, b: int)
    requires
        d > 0,
        n >= 0,
    ensures
        b * d <= n ==> b <= n / d,
        n < b * d ==> n / d < b,
        (n / d) * d <= n,
        n / d >= 0,
{
    lemma_fundamental_div_mod(n, d);
    lemma_mod_pos_bound(n, d);
    let q = n / d;
    let r = n % d;
    assert((b * d <= n ==> b <= q) && (n < b * d ==> q < b)) by (nonlinear_arith)
        requires
            n == d * q + r,
            0 <= r < d,
            d > 0,
    ;
    assert(q * d <= n && q >= 0) by (nonlinear_arith)
        requires
            n == d * q + r,
            0 <= r < d,
            d > 0,
            n >= 0,
    ;
}

proof fn lemma_digits_bound(d: Seq<u64>)
    requires
        is_digits(d),
    ensures
        digits_value(d) < power(100, d.len()),
    decreases d.len(),
{
    if d.len() > 0 {
        let e = d.drop_last();
        assert(is_digits(e)) by {
            assert forall|i: int| 0 <= i < e.len() implies #[trigger] e[i] < 100 by {
                assert(e[i] == d[i]);
            }
        }
        lemma_digits_bound(e);
        let p = power(100, e.len());
        let v = digits_value(e);
        let l = d.last();
        assert(l < 100);
        assert(v + p * l < 100 * p) by (nonlinear_arith)
            requires
                v < p,
                l < 100,
        ;
    }
}

/// The value read from the lowest digit up.
proof fn lemma_digits_first(d: Seq<u64>)
    requires
        d.len() > 0,
    ensures
        digits_value(d) == d[0] + 100 * digits_value(d.drop_first()),
    decreases d.len(),
{
    if d.len() == 1 {
        assert(d.drop_last().len() == 0);
        assert(d.drop_first().len() == 0);
        assert(digits_value(d.drop_last()) == 0);
        assert(digits_value(d.drop_first()) == 0);
        assert(power(100, (d.len() - 1) as nat) == 1);
        assert(d.last() == d[0]);
        assert(digits_value(d) == d[0]);
    } else {
        let n = d.len();
        let dl = d.drop_last();
        let df = d.drop_first();
        lemma_digits_first(dl);
        assert(dl.drop_first() =~= df.drop_last());
        assert(dl[0] == d[0]);
        let a = digits_value(df.drop_last());
        let p = power(100, (n - 2) as nat);
        let l = d.last() as nat;
        assert(df.last() == d.last());
        assert(df.len() == n - 1);
        assert(digits_value(df) == a + p * l);
        assert(digits_value(dl) == d[0] + 100 * a);
        assert(power(100, (n - 1) as nat) == 100 * p);
        assert(digits_value(d) == digits_value(dl) + power(100, (n - 1) as nat) * l);
        assert(100 * (a + p * l) == 100 * a + (100 * p) * l) by (nonlinear_arith);
        assert(digits_value(d) == d[0] + 100 * digits_value(df));
    }
}

/// The value splits at digit `k` into a low part and a high part.
proof fn lemma_digits_split(d: Seq<u64>, k: int)
    requires
        0 <= k <= d.len(),
    ensures
        digits_value(d) == digits_value(d.subrange(0, k)) + power(100, k as nat) * digits_value(
            d.subrange(k, d.len() as int),
        ),
    decreases d.len(),
{
    let n = d.len() as int;
    if k == n {
        assert(d.subrange(0, k) =~= d);
        assert(d.subrange(k, n).len() == 0);
        assert(digits_value(d.subrange(k, n)) == 0);
        assert(digits_value(d) == digits_value(d.subrange(0, k)) + power(100, k as nat) * 0);
    } else {
        let e = d.drop_last();
        lemma_digits_split(e, k);
        assert(e.subrange(0, k) =~= d.subrange(0, k));
        let hi = d.subrange(k, n);
        assert(hi.drop_last() =~= e.subrange(k, n - 1));
        assert(hi.last() == d.last());
        lemma_power_adds(100, k as nat, (n - 1 - k) as nat);
        let pk = power(100, k as nat);
        let ph = power(100, (n - 1 - k) as nat);
        let h = digits_value(e.subrange(k, n - 1));
        let l = d.last() as nat;
        assert(hi.len() == n - k);
        assert(digits_value(hi) == h + ph * l);
        assert(digits_value(d) == digits_value(e) + power(100, (n - 1) as nat) * l);
        assert((k as nat + (n - 1 - k) as nat) as nat == (n - 1) as nat);
        assert(pk * (h + ph * l) == pk * h + (pk * ph) * l) by (nonlinear_arith);
    }
}

/// The value of the digits from `k` up is the value divided by `100^k`.
pub proof fn lemma_digits_high(d: Seq<u64>, k: int)
    requires
        is_digits(d),
        0 <= k <= d.len(),
    ensures
        digits_value(d.subrange(k, d.len() as int)) == digits_value(d) / power(100, k as nat),
{
    let low = d.subrange(0, k);
    assert(is_digits(low)) by {
        assert forall|i: int| 0 <= i < low.len() implies #[trigger] low[i] < 100 by {
            assert(low[i] == d[i]);
        }
    }
    lemma_digits_bound(low);
    lemma_digits_split(d, k);
    lemma_power_positive(100, k as nat);
    let p = power(100, k as nat) as int;
    let h = digits_value(d.subrange(k, d.len() as int)) as int;
    let v = digits_value(d) as int;
    let r = digits_value(low) as int;
    assert(v == r + p * h);
    assert(v == h * p + r) by (nonlinear_arith)
        requires
            v == r + p * h,
    ;
    lemma_fundamental_div_mod_converse_div(v, p, h, r);
}

/// Digits worth at least `100^k` number more than `k`.
pub proof fn lemma_digits_len(d: Seq<u64>, k: nat)
    requires
        is_digits(d),
        digits_value(d) >= power(100, k),
    ensures
        d.len() > k,
{
    lemma_digits_bound(d);
    if d.len() <= k {
        lemma_power_exp_le(100, d.len(), k);
    }
}

/// The digits of `v`.
pub fn to_digits(v: u64) -> (r: Vec<u64>)
    ensures
        is_digits(r@),
        digits_value(r@) == v,
{
    let mut r: Vec<u64> = Vec::new();
    let mut rest = v;
    proof {
        assert(digits_value(r@) == 0);
        assert(power(100, r.len() as nat) == 1);
    }
    while rest > 0
        invariant
            is_digits(r@),
            digits_value(r@) + power(100, r.len() as nat) * rest == v,
        decreases rest,
    {
        let ghost before = r@;
        let digit = rest % 100;
        r.push(digit);
        proof {
            assert(r@.drop_last() =~= before);
            let p = power(100, before.len());
            assert(power(100, r.len() as nat) == 100 * p);
            assert(p * (rest as int) == p * digit + (100 * p) * (rest / 100)) by (nonlinear_arith)
                requires
                    rest as int == 100 * (rest / 100) + digit,
            ;
        }
        rest = rest / 100;
    }
    r
}

/// The digits of `digits_value(d) * m`, at least as many as `d` has.
pub fn mul_small(d: &Vec<u64>, m: u64) -> (r: Vec<u64>)
    requires
        is_digits(d@),
        0 < m <= 0x2_0000_0000,
    ensures
        is_digits(r@),
        digits_value(r@) == digits_value(d@) * m,
        r.len() >= d.len(),
{
    let mut r: Vec<u64> = Vec::new();
    let mut carry: u64 = 0;
    let mut i: usize = 0;
    proof {
        assert(d@.subrange(0, 0).len() == 0);
        assert(digits_value(d@.subrange(0, 0)) == 0);
        assert(digits_value(r@) == 0);
        assert(power(100, i as nat) * carry == 0);
    }
    while i < d.len()
        invariant
            is_digits(d@),
            0 < m <= 0x2_0000_0000,
            i <= d.len(),
            r.len() == i,
            is_digits(r@),
            carry < m,
            digits_value(r@) + power(100, i as nat) * carry == m * digits_value(
                d@.subrange(0, i as int),
            ),
        decreases d.len() - i,
    {
        let ghost before = r@;
        assert(d[i as int] < 100);
        assert(d[i as int] * m + carry <= 100 * 0x2_0000_0000) by (nonlinear_arith)
            requires
                d[i as int] < 100,
                m <= 0x2_0000_0000,
                carry < m,
        ;
        let t = d[i] * m + carry;
        let digit = t % 100;
        r.push(digit);
        let next = t / 100;
        proof {
            assert(r@.drop_last() =~= before);
            let p = power(100, i as nat);
            assert(power(100, (i + 1) as nat) == 100 * p);
            let pre = d@.subrange(0, i + 1);
            assert(pre.drop_last() =~= d@.subrange(0, i as int));
            assert(pre.last() == d[i as int]);
            let a = digits_value(before);
            let b = digits_value(d@.subrange(0, i as int));
            let x = d[i as int] as int;
            assert(a + p * digit + (100 * p) * next == m * (b + p * x)) by (nonlinear_arith)
                requires
                    a + p * carry == m * b,
                    t == x * m + carry,
                    t == 100 * next + digit,
            ;
            assert(next < m) by (nonlinear_arith)
                requires
                    t == x * m + carry,
                    t == 100 * next + digit,
                    x < 100,
                    carry < m,
                    digit >= 0,
            ;
        }
        carry = next;
        i = i + 1;
    }
    assert(d@.subrange(0, d.len() as int) =~= d@);
    while carry > 0
        invariant
            is_digits(r@),
            r.len() >= d.len(),
            digits_value(r@) + power(100, r.len() as nat) * carry == m * digits_value(d@),
        decreases carry,
    {
        let ghost before = r@;
        let digit = carry % 100;
        r.push(digit);
        proof {
            assert(r@.drop_last() =~= before);
            let p = power(100, before.len());
            assert(power(100, r.len() as nat) == 100 * p);
            assert(p * (carry as int) == p * digit + (100 * p) * (carry / 100)) by (nonlinear_arith)
                requires
                    carry as int == 100 * (carry / 100) + digit,
            ;
        }
        carry = carry / 100;
    }
    proof {
        assert(digits_value(d@) * m == m * digits_value(d@)) by (nonlinear_arith);
    }
    r
}

/// The value of the digits of `d` from `k` up.
pub fn high_value(d: &Vec<u64>, k: usize) -> (r: u128)
    requires
        is_digits(d@),
        k <= d.len(),
        digits_value(d@.subrange(k as int, d.len() as int)) <= u128::MAX,
    ensures
        r == digits_value(d@.subrange(k as int, d.len() as int)),
{
    let ghost top = d@.subrange(k as int, d.len() as int);
    let mut h: u128 = 0;
    let mut i: usize = d.len();
    proof {
        assert(d@.subrange(i as int, d.len() as int).len() == 0);
    }
    while i > k
        invariant
            is_digits(d@),
            k <= i <= d.len(),
            top == d@.subrange(k as int, d.len() as int),
            digits_value(top) <= u128::MAX,
            h == digits_value(d@.subrange(i as int, d.len() as int)),
        decreases i,
    {
        let ghost s = d@.subrange(i - 1, d.len() as int);
        proof {
            lemma_digits_first(s);
            assert(s.drop_first() =~= d@.subrange(i as int, d.len() as int));
            assert(s[0] == d[i - 1]);
            lemma_digits_split(top, i - 1 - k);
            assert(top.subrange(i - 1 - k, top.len() as int) =~= s);
            lemma_power_positive(100, (i - 1 - k) as nat);
            let p = power(100, (i - 1 - k) as nat);
            let sv = digits_value(s);
            assert(sv <= p * sv) by (nonlinear_arith)
                requires
                    p > 0,
            ;
        }
        h = h * 100 + d[i - 1] as u128;
        i = i - 1;
    }
    h
}

} // verus!
