//! Inclusive ranges of ids: membership, merging into a sorted disjoint cover,
//! and the size of their union.

use vstd::prelude::*;

verus! {

/// `x` lies in one of the inclusive ranges of `rs`.
pub open spec fn covered(rs: Seq<(u64, u64)>, x: int) -> bool {
    exists|i: int| 0 <= i < rs.len() && (#[trigger] rs[i]).0 <= x <= rs[i].1
}

/// Every range of `rs` has its start at most its end.
pub open spec fn well_formed(rs: Seq<(u64, u64)>) -> bool {
    forall|i: int| 0 <= i < rs.len() ==> (#[trigger] rs[i]).0 <= rs[i].1
}

/// The ranges of `rs` are well formed, ascending, and pairwise disjoint.
pub open spec fn sorted_disjoint(rs: Seq<(u64, u64)>) -> bool {
    &&& well_formed(rs)
    &&& forall|i: int, j: int| 0 <= i < j < rs.len() ==> (#[trigger] rs[i]).1 < (#[trigger] rs[j]).0
}

/// `rs` and `ts` cover the same ids.
pub open spec fn same_union(rs: Seq<(u64, u64)>, ts: Seq<(u64, u64)>) -> bool {
    forall|x: int| #[trigger] covered(rs, x) == covered(ts, x)
}

/// Total number of ids in the ranges of `rs`, counted with multiplicity.
pub open spec fn total_len(rs: Seq<(u64, u64)>) -> int
    decreases rs.len(),
{
    if rs.len() == 0 {
        0
    } else {
        total_len(rs.drop_last()) + (rs.last().1 - rs.last().0 + 1)
    }
}

/// Number of the first `k` ids that lie in some range.
pub open spec fn fresh_count(rs: Seq<(u64, u64)>, ids: Seq<u64>, k: int) -> nat
    decreases k,
{
    if k <= 0 {
        0
    } else {
        fresh_count(rs, ids, k - 1) + if covered(rs, ids[k - 1] as int) {
            1nat
        } else {
            0nat
        }
    }
}

/// Does `x` lie in one of the ranges?
pub fn in_any(ranges: &Vec<(u64, u64)>, x: u64) -> (r: bool)
    ensures
        r == covered(ranges@, x as int),
{
    let mut i: usize = 0;
    while i < ranges.len()
        invariant
            i <= ranges@.len(),
            forall|j: int| 0 <= j < i ==> !((#[trigger] ranges@[j]).0 <= x <= ranges@[j].1),
        decreases ranges@.len() - i,
    {
        if ranges[i].0 <= x && x <= ranges[i].1 {
            assert(ranges@[i as int].0 <= x <= ranges@[i as int].1);
            return true;
        }
        i = i + 1;
    }
    false
}

/// Number of ids that lie in some range.
pub fn first_challenge(ranges: &Vec<(u64, u64)>, ids: &Vec<u64>) -> (r: u64)
    ensures
        r == fresh_count(ranges@, ids@, ids@.len() as int),
{
    let mut count: u64 = 0;
    let mut k: usize = 0;
    while k < ids.len()
        invariant
            k <= ids@.len(),
            count == fresh_count(ranges@, ids@, k as int),
            count <= k,
        decreases ids@.len() - k,
    {
        if in_any(ranges, ids[k]) {
            count = count + 1;
        }
        k = k + 1;
    }
    count
}

/// Together with the pending range `(lo, hi)` where it is not yet placed, `res`
/// covers the ids of `t` and of `(lo0, hi0)`.
pub open spec fn covers_as(
    res: Seq<(u64, u64)>,
    placed: bool,
    lo: u64,
    hi: u64,
    t: Seq<(u64, u64)>,
    lo0: u64,
    hi0: u64,
) -> bool {
    forall|x: int|
        #![trigger covered(res, x)]
        (covered(res, x) || (!placed && lo <= x <= hi)) == (covered(t, x) || lo0 <= x <= hi0)
}

proof fn lemma_covered_push(s: Seq<(u64, u64)>, g: (u64, u64), x: int)
    ensures
        covered(s.push(g), x) == (covered(s, x) || g.0 <= x <= g.1),
{
    let t = s.push(g);
    if covered(s, x) {
        let i = choose|i: int| 0 <= i < s.len() && (#[trigger] s[i]).0 <= x <= s[i].1;
        assert(t[i] == s[i]);
    }
    if covered(t, x) {
        let i = choose|i: int| 0 <= i < t.len() && (#[trigger] t[i]).0 <= x <= t[i].1;
        if i < s.len() {
            assert(s[i] == t[i]);
        }
    }
    if g.0 <= x <= g.1 {
        assert(t[s.len() as int] == g);
    }
}

/// Adds the range `(lo0, hi0)` to the sorted disjoint cover `out`.
fn insert_range(out: &Vec<(u64, u64)>, lo0: u64, hi0: u64) -> (res: Vec<(u64, u64)>)
    requires
        sorted_disjoint(out@),
        lo0 <= hi0,
    ensures
        sorted_disjoint(res@),
        forall|x: int| #[trigger] covered(res@, x) == (covered(out@, x) || lo0 <= x <= hi0),
{
    let mut res: Vec<(u64, u64)> = Vec::new();
    let mut lo = lo0;
    let mut hi = hi0;
    let mut placed = false;
    let mut k: usize = 0;
    while k < out.len()
        invariant
            sorted_disjoint(out@),
            k <= out@.len(),
            sorted_disjoint(res@),
            lo <= lo0 <= hi0 <= hi,
            !placed ==> forall|i: int| 0 <= i < res@.len() ==> (#[trigger] res@[i]).1 < lo,
            !placed ==> forall|i: int, j: int|
                0 <= i < res@.len() && k <= j < out@.len() ==> (#[trigger] res@[i]).1 < (
                #[trigger] out@[j]).0,
            placed ==> res@.len() > 0 && forall|i: int|
                k <= i < out@.len() ==> res@.last().1 < (#[trigger] out@[i]).0,
            covers_as(res@, placed, lo, hi, out@.take(k as int), lo0, hi0),
        decreases out@.len() - k,
    {
        let g = out[k];
        let ghost prev = res@;
        let ghost next = out@.take(k as int + 1);
        let ghost (lo_b, hi_b, placed_b) = (lo, hi, placed);
        if placed {
            res.push(g);
        } else if g.1 < lo {
            res.push(g);
        } else if g.0 > hi {
            res.push((lo, hi));
            res.push(g);
            placed = true;
        } else {
            if g.0 < lo {
                lo = g.0;
            }
            if g.1 > hi {
                hi = g.1;
            }
        }
        proof {
            let t = out@.take(k as int);
            assert(next =~= t.push(g));
            assert forall|x: int|
                #![trigger covered(res@, x)]
                (covered(res@, x) || (!placed && lo <= x <= hi)) == (covered(next, x) || lo0 <= x
                    <= hi0) by {
                lemma_covered_push(t, g, x);
                lemma_covered_push(prev, g, x);
                assert((covered(prev, x) || (!placed_b && lo_b <= x <= hi_b)) == (covered(t, x)
                    || lo0 <= x <= hi0));
                if placed_b || g.1 < lo_b {
                    assert(res@ == prev.push(g));
                } else if g.0 > hi_b {
                    lemma_covered_push(prev, (lo_b, hi_b), x);
                    lemma_covered_push(prev.push((lo_b, hi_b)), g, x);
                    assert(res@ == prev.push((lo_b, hi_b)).push(g));
                } else {
                    assert(res@ == prev);
                }
            }
            assert forall|i: int, j: int|
                0 <= i < j < res@.len() implies (#[trigger] res@[i]).1 < (#[trigger] res@[j]).0 by {
                if j >= prev.len() && i < prev.len() {
                    assert(prev[i] == res@[i]);
                }
            }
        }
        assert(covers_as(res@, placed, lo, hi, next, lo0, hi0));
        k = k + 1;
        assert(next =~= out@.take(k as int));
    }
    let ghost prev = res@;
    if !placed {
        res.push((lo, hi));
    }
    proof {
        assert(out@.take(out@.len() as int) =~= out@);
        assert forall|x: int| #[trigger] covered(res@, x) == (covered(out@, x) || lo0 <= x <= hi0) by {
            if covered(prev, x) {
                let i = choose|i: int| 0 <= i < prev.len() && (#[trigger] prev[i]).0 <= x <= prev[i].1;
                assert(res@[i] == prev[i]);
            }
            if covered(res@, x) {
                let i = choose|i: int| 0 <= i < res@.len() && (#[trigger] res@[i]).0 <= x <= res@[i].1;
                if i < prev.len() {
                    assert(prev[i] == res@[i]);
                }
            }
            if !placed && lo <= x <= hi {
                assert(res@[res@.len() - 1] == (lo, hi));
            }
        }
        assert forall|i: int, j: int|
            0 <= i < j < res@.len() implies (#[trigger] res@[i]).1 < (#[trigger] res@[j]).0 by {
            if j >= prev.len() && i < prev.len() {
                assert(prev[i] == res@[i]);
            }
        }
    }
    res
}

/// The ranges merged into a sorted, disjoint list that covers the same ids.
pub fn merge_range_groups(ranges: Vec<(u64, u64)>) -> (r: Vec<(u64, u64)>)
    requires
        well_formed(ranges@),
    ensures
        sorted_disjoint(r@),
        same_union(r@, ranges@),
{
    let mut out: Vec<(u64, u64)> = Vec::new();
    let mut i: usize = 0;
    while i < ranges.len()
        invariant
            well_formed(ranges@),
            i <= ranges@.len(),
            sorted_disjoint(out@),
            forall|x: int| #[trigger] covered(out@, x) == covered(ranges@.take(i as int), x),
        decreases ranges@.len() - i,
    {
        let (lo, hi) = ranges[i];
        assert(ranges@[i as int].0 <= ranges@[i as int].1);
        out = insert_range(&out, lo, hi);
        proof {
            let t = ranges@.take(i as int);
            let t1 = ranges@.take(i as int + 1);
            assert forall|x: int| #[trigger] covered(out@, x) == covered(t1, x) by {
                if covered(t, x) {
                    let j = choose|j: int| 0 <= j < t.len() && (#[trigger] t[j]).0 <= x <= t[j].1;
                    assert(t1[j] == t[j]);
                }
                if covered(t1, x) {
                    let j = choose|j: int| 0 <= j < t1.len() && (#[trigger] t1[j]).0 <= x <= t1[j].1;
                    if j < t.len() {
                        assert(t[j] == t1[j]);
                    }
                }
                if lo <= x <= hi {
                    assert(t1[i as int] == (lo, hi));
                }
            }
        }
        i = i + 1;
    }
    proof {
        assert(ranges@.take(ranges@.len() as int) =~= ranges@);
    }
    out
}

/// Number of ids that lie in some range: the size of the union of the ranges.
pub fn second_challenge(ranges: Vec<(u64, u64)>) -> (r: u128)
    requires
        well_formed(ranges@),
    ensures
        exists|m: Seq<(u64, u64)>|
            sorted_disjoint(m) && same_union(m, ranges@) && r == #[trigger] total_len(m),
{
    let merged = merge_range_groups(ranges);
    let mut total: u128 = 0;
    let mut k: usize = 0;
    while k < merged.len()
        invariant
            sorted_disjoint(merged@),
            k <= merged@.len(),
            total == total_len(merged@.take(k as int)),
            k > 0 ==> total <= merged@[k - 1].1 + 1,
            k == 0 ==> total == 0,
        decreases merged@.len() - k,
    {
        let (lo, hi) = merged[k];
        proof {
            assert(merged@.take(k as int + 1).drop_last() =~= merged@.take(k as int));
            assert(merged@[k as int].0 <= merged@[k as int].1);
        }
        total = total + (hi - lo) as u128 + 1;
        k = k + 1;
    }
    proof {
        assert(merged@.take(merged@.len() as int) =~= merged@);
    }
    total
}

} // verus!
