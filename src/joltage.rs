//! Banks of single-digit batteries: the largest number that `k` batteries of a
//! bank show when picked in order.

use vstd::prelude::*;

verus! {

pub open spec fn pow10(k: nat) -> int
    decreases k,
{
    if k == 0 {
        1
    } else {
        10 * pow10((k - 1) as nat)
    }
}

/// Every battery holds a single digit.
pub open spec fn digits(b: Seq<u8>) -> bool {
    forall|i: int| 0 <= i < b.len() ==> #[trigger] b[i] <= 9
}

/// The largest `k`-digit number whose digits are picked, in order, from
/// `b[i..]`, where `k <= b.len() - i`: either `b[i]` leads, or it is skipped.
pub open spec fn best(b: Seq<u8>, k: nat, i: int) -> int
    decreases b.len() - i,
{
    if k == 0 || i >= b.len() || i < 0 {
        0
    } else {
        let take = b[i] * pow10((k - 1) as nat) + best(b, (k - 1) as nat, i + 1);
        if b.len() - i > k {
            let skip = best(b, k, i + 1);
            if take >= skip {
                take
            } else {
                skip
            }
        } else {
            take
        }
    }
}

proof fn lemma_pow10_pos(k: nat)
    ensures
        pow10(k) >= 1,
    decreases k,
{
    if k > 0 {
        lemma_pow10_pos((k - 1) as nat);
    }
}

proof fn lemma_best_bound(b: Seq<u8>, k: nat, i: int)
    requires
        digits(b),
    ensures
        0 <= best(b, k, i) <= pow10(k) - 1,
    decreases b.len() - i,
{
    if k == 0 || i >= b.len() || i < 0 {
        lemma_pow10_pos(k);
    } else {
        lemma_best_bound(b, (k - 1) as nat, i + 1);
        if b.len() - i > k {
            lemma_best_bound(b, k, i + 1);
        }
        let p = pow10((k - 1) as nat);
        let d = b[i] as int;
        lemma_pow10_pos((k - 1) as nat);
        assert(d * p <= 9 * p && d * p >= 0) by (nonlinear_arith)
            requires
                0 <= d <= 9,
                p >= 1,
        ;
    }
}

/// The powers of ten up to `10^n`.
fn powers_of_ten(n: usize) -> (p: Vec<u64>)
    requires
        n <= 19,
    ensures
        p@.len() == n + 1,
        forall|k: int| 0 <= k <= n ==> #[trigger] p@[k] == pow10(k as nat),
{
    let mut p: Vec<u64> = Vec::new();
    p.push(1);
    let mut k: usize = 0;
    while k < n
        invariant
            n <= 19,
            k <= n,
            p@.len() == k + 1,
            forall|m: int| 0 <= m <= k ==> #[trigger] p@[m] == pow10(m as nat),
        decreases n - k,
    {
        let last = p[k];
        assert(p@[k as int] == pow10(k as nat));
        proof {
            lemma_pow10_le(k as nat);
            lemma_pow10_le((k + 1) as nat);
        }
        p.push(last * 10);
        k = k + 1;
    }
    p
}

proof fn lemma_pow10_le(k: nat)
    requires
        k <= 19,
    ensures
        pow10(k) <= 10_000_000_000_000_000_000,
{
    lemma_pow10_mono(k, 19);
    reveal_with_fuel(pow10, 20);
}

proof fn lemma_pow10_mono(a: nat, b: nat)
    requires
        a <= b,
    ensures
        pow10(a) <= pow10(b),
    decreases b,
{
    if a < b {
        lemma_pow10_mono(a, (b - 1) as nat);
        lemma_pow10_pos((b - 1) as nat);
    }
}

/// The largest `num`-digit number that batteries of `bank`, picked in order, show.
pub fn find_optimal_joltage(bank: &Vec<u8>, num: usize) -> (r: u64)
    requires
        1 <= num <= bank@.len(),
        num <= 19,
        digits(bank@),
    ensures
        r == best(bank@, num as nat, 0),
{
    let len = bank.len();
    let p = powers_of_ten(num);
    // After the step for `i`, dp[k] == best(bank, k, i) for every k <= min(num, len - i).
    let mut dp: Vec<u64> = Vec::new();
    let mut k: usize = 0;
    while k <= num
        invariant
            num <= 19,
            k <= num + 1,
            dp@.len() == k,
            forall|m: int| 0 <= m < k ==> #[trigger] dp@[m] == 0,
        decreases num + 1 - k,
    {
        dp.push(0);
        k = k + 1;
    }
    let mut i: usize = len;
    while i > 0
        invariant
            len == bank@.len(),
            1 <= num <= len,
            num <= 19,
            digits(bank@),
            i <= len,
            dp@.len() == num + 1,
            p@.len() == num + 1,
            forall|m: int| 0 <= m <= num ==> #[trigger] p@[m] == pow10(m as nat),
            forall|m: int| 0 <= m <= num && m <= len - i ==> #[trigger] dp@[m] == best(bank@, m as nat, i as int),
        decreases i,
    {
        i = i - 1;
        let ghost old_dp = dp@;
        let top: usize = if num < len - i { num } else { len - i };
        let mut k: usize = top;
        while k > 0
            invariant
                len == bank@.len(),
                num <= 19,
                digits(bank@),
                i < len,
                top <= num,
                top <= len - i,
                k <= top,
                dp@.len() == num + 1,
                p@.len() == num + 1,
                forall|m: int| 0 <= m <= num ==> #[trigger] p@[m] == pow10(m as nat),
                forall|m: int| 0 <= m <= num && m <= len - i - 1 ==> #[trigger] old_dp[m] == best(bank@, m as nat, i + 1),
                forall|m: int| 0 <= m <= k ==> #[trigger] dp@[m] == old_dp[m],
                forall|m: int| k < m <= top ==> #[trigger] dp@[m] == best(bank@, m as nat, i as int),
            decreases k,
        {
            let d = bank[i] as u64;
            let below = dp[k - 1];
            proof {
                lemma_best_bound(bank@, (k - 1) as nat, i + 1);
                lemma_best_bound(bank@, k as nat, i as int);
                lemma_pow10_pos((k - 1) as nat);
                lemma_pow10_le((k - 1) as nat);
                assert(bank@[i as int] <= 9);
                assert(d * p@[k - 1] <= 9 * p@[k - 1]) by (nonlinear_arith)
                    requires
                        d <= 9,
                ;
                assert(10 * pow10((k - 1) as nat) == pow10(k as nat));
                lemma_pow10_le(k as nat);
            }
            let take = d * p[k - 1] + below;
            if len - i > k {
                let skip = dp[k];
                if take >= skip {
                    dp.set(k, take);
                }
            } else {
                dp.set(k, take);
            }
            k = k - 1;
        }
    }
    dp[num]
}

/// Sum over the banks of the largest `num`-digit number of each.
pub fn total_joltage(banks: &Vec<Vec<u8>>, num: usize) -> (r: u128)
    requires
        1 <= num <= 19,
        forall|b: int| 0 <= b < banks@.len() ==> num <= (#[trigger] banks@[b])@.len() && digits(banks@[b]@),
    ensures
        r == total_best(banks@, num as nat, banks@.len() as int),
{
    let mut total: u128 = 0;
    let mut b: usize = 0;
    while b < banks.len()
        invariant
            1 <= num <= 19,
            forall|c: int| 0 <= c < banks@.len() ==> num <= (#[trigger] banks@[c])@.len() && digits(banks@[c]@),
            b <= banks@.len(),
            total == total_best(banks@, num as nat, b as int),
            total <= b * 10_000_000_000_000_000_000,
        decreases banks@.len() - b,
    {
        let v = find_optimal_joltage(&banks[b], num);
        proof {
            lemma_best_bound(banks@[b as int]@, num as nat, 0);
            lemma_pow10_le(num as nat);
            assert((b + 1) * 10_000_000_000_000_000_000 <= 0x1_0000_0000_0000_0000 * 10_000_000_000_000_000_000) by (nonlinear_arith)
                requires
                    b < 0x1_0000_0000_0000_0000,
            ;
        }
        total = total + v as u128;
        b = b + 1;
    }
    total
}

/// Sum of the best `num`-digit numbers of the first `k` banks.
pub open spec fn total_best(banks: Seq<Vec<u8>>, num: nat, k: int) -> int
    decreases k,
{
    if k <= 0 {
        0
    } else {
        total_best(banks, num, k - 1) + best(banks[k - 1]@, num, 0)
    }
}

/// Sum over the banks of the largest two-digit number of each.
pub fn first_challenge(banks: &Vec<Vec<u8>>) -> (r: u128)
    requires
        forall|b: int| 0 <= b < banks@.len() ==> 2 <= (#[trigger] banks@[b])@.len() && digits(banks@[b]@),
    ensures
        r == total_best(banks@, 2, banks@.len() as int),
{
    total_joltage(banks, 2)
}

/// Sum over the banks of the largest twelve-digit number of each.
pub fn second_challenge(banks: &Vec<Vec<u8>>) -> (r: u128)
    requires
        forall|b: int| 0 <= b < banks@.len() ==> 12 <= (#[trigger] banks@[b])@.len() && digits(banks@[b]@),
    ensures
        r == total_best(banks@, 12, banks@.len() as int),
{
    total_joltage(banks, 12)
}

} // verus!
