//! Ids made of a block of digits written twice (`6464`, `123123`), and their
//! sum over inclusive ranges.

use vstd::prelude::*;
use crate::joltage::pow10;

verus! {

/// The number whose digits are those of `m`, a `d`-digit number, written twice.
pub open spec fn twice(m: int, d: nat) -> int {
    m * (pow10(d) + 1)
}

/// `twice(m, d)` where it lies in `[a, b]`; else 0.
pub open spec fn term(a: int, b: int, d: nat, m: int) -> int {
    if a <= twice(m, d) <= b {
        twice(m, d)
    } else {
        0
    }
}

/// Sum of the terms of the first `k` blocks of `d` digits.
pub open spec fn block_sum(a: int, b: int, d: nat, k: int) -> int
    decreases k,
{
    if k <= 0 {
        0
    } else {
        block_sum(a, b, d, k - 1) + term(a, b, d, pow10((d - 1) as nat) + k - 1)
    }
}

/// Sum of the ids in `[a, b]` made of a block of `1..=dmax` digits written twice.
pub open spec fn doubled_sum(a: int, b: int, dmax: nat) -> int
    decreases dmax,
{
    if dmax == 0 {
        0
    } else {
        doubled_sum(a, b, (dmax - 1) as nat) + block_sum(
            a,
            b,
            dmax,
            9 * pow10((dmax - 1) as nat),
        )
    }
}

/// Sum over the ranges of the doubled ids each holds, counted once per range.
pub open spec fn ranges_sum(rs: Seq<(u64, u64)>, k: int) -> int
    decreases k,
{
    if k <= 0 {
        0
    } else {
        ranges_sum(rs, k - 1) + doubled_sum(rs[k - 1].0 as int, rs[k - 1].1 as int, 10)
    }
}

proof fn lemma_block_tail_zero(a: int, b: int, d: nat, k: int, n: int)
    requires
        0 <= k <= n,
        d >= 1,
        pow10(d) + 1 > 0,
        twice(pow10((d - 1) as nat) + k, d) > b,
    ensures
        block_sum(a, b, d, n) == block_sum(a, b, d, k),
    decreases n - k,
{
    if n > k {
        lemma_block_tail_zero(a, b, d, k, n - 1);
        let f = pow10(d) + 1;
        let m0 = pow10((d - 1) as nat) + k;
        let m = pow10((d - 1) as nat) + n - 1;
        assert(m * f >= m0 * f) by (nonlinear_arith)
            requires
                m >= m0,
                f > 0,
        ;
    }
}

proof fn lemma_block_sum_nonneg(a: int, b: int, d: nat, k: int)
    requires
        a >= 0,
    ensures
        0 <= block_sum(a, b, d, k),
    decreases k,
{
    if k > 0 {
        lemma_block_sum_nonneg(a, b, d, k - 1);
    }
}

proof fn lemma_pow10_mono(a: nat, b: nat)
    requires
        a <= b,
    ensures
        pow10(a) <= pow10(b),
    decreases b,
{
    if a < b {
        lemma_pow10_mono(a, (b - 1) as nat);
        lemma_pow10_pos((b - 1) as nat);
    }
}

proof fn lemma_pow10_pos(k: nat)
    ensures
        pow10(k) >= 1,
    decreases k,
{
    if k > 0 {
        lemma_pow10_pos((k - 1) as nat);
    }
}

proof fn lemma_pow10_small(k: nat)
    requires
        k <= 9,
    ensures
        pow10(k) <= 1_000_000_000,
        pow10(10) == 10_000_000_000,
{
    lemma_pow10_mono(k, 9);
    reveal_with_fuel(pow10, 11);
}

proof fn lemma_pow10_step(d: nat)
    ensures
        pow10(d + 1) == 10 * pow10(d),
{
}

/// Sum of the ids in `[a, b]` that are a block of `d` digits written twice,
/// where `p == 10^(d - 1)`.
fn block_total(a: u64, b: u64, d: u64, p: u128) -> (r: u128)
    requires
        1 <= d <= 10,
        p == pow10((d - 1) as nat),
        p <= 1_000_000_000,
    ensures
        r == block_sum(a as int, b as int, d as nat, 9 * p),
        r <= 9 * p * 0x1_0000_0000_0000_0000,
{
    let f: u128 = 10 * p + 1;
    proof {
        lemma_pow10_step((d - 1) as nat);
    }
    let mut k: u128 = 0;
    let mut acc: u128 = 0;
    while k < 9 * p
        invariant
            1 <= d <= 10,
            p == pow10((d - 1) as nat),
            p <= 1_000_000_000,
            f == pow10(d as nat) + 1,
            k <= 9 * p,
            acc == block_sum(a as int, b as int, d as nat, k as int),
            acc <= k * 0x1_0000_0000_0000_0000,
        decreases 9 * p - k,
    {
        let m = p + k;
        assert(m * f <= 10_000_000_000 * 10_000_000_001) by (nonlinear_arith)
            requires
                m < 10 * p,
                p <= 1_000_000_000,
                f == 10 * p + 1,
        ;
        let x = m * f;
        if x > b as u128 {
            proof {
                lemma_block_tail_zero(a as int, b as int, d as nat, k as int, 9 * p as int);
            }
            assert(acc <= 9 * p * 0x1_0000_0000_0000_0000) by (nonlinear_arith)
                requires
                    acc <= k * 0x1_0000_0000_0000_0000,
                    k <= 9 * p,
            ;
            return acc;
        }
        if x >= a as u128 {
            acc = acc + x;
        }
        k = k + 1;
    }
    acc
}

/// Sum of the ids in `[a, b]` made of a block of digits written twice.
pub fn doubled_in_range(a: u64, b: u64) -> (r: u128)
    ensures
        r == doubled_sum(a as int, b as int, 10),
        r <= 0x1_0000_0000_0000_0000 * 10_000_000_000,
{
    let mut total: u128 = 0;
    let mut p: u128 = 1;
    let mut d: u64 = 1;
    while d <= 10
        invariant
            1 <= d <= 11,
            p == pow10((d - 1) as nat),
            d <= 10 ==> p <= 1_000_000_000,
            total == doubled_sum(a as int, b as int, (d - 1) as nat),
            total <= 0x1_0000_0000_0000_0000 * (p - 1),
        decreases 11 - d,
    {
        let s = block_total(a, b, d, p);
        proof {
            lemma_pow10_step((d - 1) as nat);
            if d + 1 <= 10 {
                lemma_pow10_small(d as nat);
            }
            lemma_pow10_small(0);
        }
        total = total + s;
        p = p * 10;
        d = d + 1;
    }
    proof {
        lemma_pow10_small(0);
    }
    total
}

/// Sum over the ranges of the ids made of a block of digits written twice;
/// `None` where the sum leaves `u128`.
pub fn first_challenge(ranges: &Vec<(u64, u64)>) -> (r: Option<u128>)
    ensures
        r is Some <==> ranges_sum(ranges@, ranges@.len() as int) <= u128::MAX,
        r matches Some(v) ==> v == ranges_sum(ranges@, ranges@.len() as int),
{
    let mut total: u128 = 0;
    let mut k: usize = 0;
    while k < ranges.len()
        invariant
            k <= ranges@.len(),
            total == ranges_sum(ranges@, k as int),
        decreases ranges@.len() - k,
    {
        let (a, b) = ranges[k];
        let s = doubled_in_range(a, b);
        match total.checked_add(s) {
            Some(t) => {
                total = t;
            },
            None => {
                proof {
                    lemma_ranges_sum_grows(ranges@, k as int + 1, ranges@.len() as int);
                }
                return None;
            },
        }
        k = k + 1;
    }
    Some(total)
}

proof fn lemma_doubled_sum_nonneg(a: int, b: int, dmax: nat)
    requires
        a >= 0,
    ensures
        doubled_sum(a, b, dmax) >= 0,
    decreases dmax,
{
    if dmax > 0 {
        lemma_doubled_sum_nonneg(a, b, (dmax - 1) as nat);
        lemma_block_sum_nonneg(a, b, dmax, 9 * pow10((dmax - 1) as nat));
    }
}

proof fn lemma_ranges_sum_grows(rs: Seq<(u64, u64)>, k: int, n: int)
    requires
        0 <= k <= n <= rs.len(),
    ensures
        ranges_sum(rs, k) <= ranges_sum(rs, n),
    decreases n - k,
{
    if n > k {
        lemma_ranges_sum_grows(rs, k, n - 1);
        lemma_doubled_sum_nonneg(rs[n - 1].0 as int, rs[n - 1].1 as int, 10);
    }
}

} // verus!
