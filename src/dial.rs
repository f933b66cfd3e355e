//! A dial of 100 positions, starting at 50, turned right (positive) or left
//! (negative) by a list of rotations.

use vstd::prelude::*;
use vstd::arithmetic::div_mod::{lemma_fundamental_div_mod, lemma_mod_multiples_vanish};

verus! {

/// Sum of the first `k` rotations.
pub open spec fn turned(rs: Seq<i32>, k: int) -> int
    decreases k,
{
    if k <= 0 {
        0
    } else {
        turned(rs, k - 1) + rs[k - 1]
    }
}

/// Position of the dial after the first `k` rotations.
pub open spec fn position(rs: Seq<i32>, k: int) -> int {
    (50 + turned(rs, k)) % 100
}

/// Number of rotations among the first `k` after which the dial rests at 0.
pub open spec fn zero_rests(rs: Seq<i32>, k: int) -> nat
    decreases k,
{
    if k <= 0 {
        0
    } else {
        zero_rests(rs, k - 1) + if position(rs, k) == 0 {
            1nat
        } else {
            0nat
        }
    }
}

/// Number of multiples of 100 that a turn by `r` from position `s` (`0 <= s < 100`)
/// passes through or lands on, its start excluded.
pub open spec fn zero_clicks(s: int, r: int) -> int {
    if r >= 0 {
        (s + r) / 100
    } else if s == 0 {
        (-r) / 100
    } else {
        (-r - s + 100) / 100
    }
}

/// Clicks at 0 over the first `k` rotations.
pub open spec fn total_clicks(rs: Seq<i32>, k: int) -> int
    decreases k,
{
    if k <= 0 {
        0
    } else {
        total_clicks(rs, k - 1) + zero_clicks(position(rs, k - 1), rs[k - 1] as int)
    }
}

/// The position after turning by `r` from `s`, and the magnitude of `r`.
fn turn(s: u64, r: i32, before: Ghost<int>) -> (res: (u64, u64))
    requires
        s < 100,
        s == before@ % 100,
    ensures
        res.0 < 100,
        res.0 == (before@ + r) % 100,
        res.1 == if r >= 0 {
            r as int
        } else {
            -r
        },
{
    let a: u64 = if r >= 0 {
        r as u64
    } else {
        (-(r as i64)) as u64
    };
    let rem = a % 100;
    let ghost p = before@;
    proof {
        lemma_fundamental_div_mod(p, 100);
        lemma_fundamental_div_mod(a as int, 100);
    }
    if r >= 0 {
        proof {
            lemma_mod_multiples_vanish(p / 100 + a / 100, s + rem, 100);
            assert(p + r == 100 * (p / 100 + a / 100) + (s + rem));
        }
        (((s + rem) % 100), a)
    } else {
        proof {
            lemma_mod_multiples_vanish(p / 100 - a / 100 - 1, s + 100 - rem, 100);
            assert(p + r == 100 * (p / 100 - a / 100 - 1) + (s + 100 - rem));
        }
        (((s + 100 - rem) % 100), a)
    }
}

/// Number of rotations after which the dial rests at 0.
pub fn first_challenge(rotations: &Vec<i32>) -> (r: u64)
    ensures
        r == zero_rests(rotations@, rotations@.len() as int),
{
    let mut s: u64 = 50;
    let mut count: u64 = 0;
    let mut k: usize = 0;
    while k < rotations.len()
        invariant
            k <= rotations@.len(),
            s < 100,
            s == position(rotations@, k as int),
            count == zero_rests(rotations@, k as int),
            count <= k,
        decreases rotations@.len() - k,
    {
        let (t, _) = turn(s, rotations[k], Ghost(50 + turned(rotations@, k as int)));
        s = t;
        if s == 0 {
            count = count + 1;
        }
        k = k + 1;
    }
    count
}

/// Number of times the dial points at 0 while turning, over all rotations.
pub fn second_challenge(rotations: &Vec<i32>) -> (r: u64)
    requires
        rotations@.len() <= u32::MAX,
    ensures
        r == total_clicks(rotations@, rotations@.len() as int),
{
    let mut s: u64 = 50;
    let mut total: u64 = 0;
    let mut k: usize = 0;
    while k < rotations.len()
        invariant
            k <= rotations@.len() <= u32::MAX,
            s < 100,
            s == position(rotations@, k as int),
            total == total_clicks(rotations@, k as int),
            total <= k * 0x200_0000,
        decreases rotations@.len() - k,
    {
        let r = rotations[k];
        let (t, a) = turn(s, r, Ghost(50 + turned(rotations@, k as int)));
        let clicks: u64 = if r >= 0 {
            (s + a) / 100
        } else if s == 0 {
            a / 100
        } else {
            (a + 100 - s) / 100
        };
        assert(clicks <= 0x200_0000);
        assert(total + clicks <= (k + 1) * 0x200_0000) by (nonlinear_arith)
            requires
                total <= k * 0x200_0000,
                clicks <= 0x200_0000,
        ;
        assert((k + 1) * 0x200_0000 <= 0x1_0000_0000 * 0x200_0000) by (nonlinear_arith)
            requires
                k + 1 <= 0x1_0000_0000,
        ;
        total = total + clicks;
        s = t;
        k = k + 1;
    }
    total
}

} // verus!
