//! Column arithmetic: each group of numbers is summed or multiplied, and the
//! results are added up.

use vstd::prelude::*;

verus! {

#[derive(Debug, Clone, Copy, PartialEq, Eq, Structural)]
pub enum Operator {
    Add,
    Multiply,
}

/// The result of applying `op` to the first `k` numbers of `ns`.
pub open spec fn fold_value(ns: Seq<u64>, op: Operator, k: int) -> int
    decreases k,
{
    if k <= 0 {
        match op {
            Operator::Add => 0,
            Operator::Multiply => 1,
        }
    } else {
        match op {
            Operator::Add => fold_value(ns, op, k - 1) + ns[k - 1],
            Operator::Multiply => fold_value(ns, op, k - 1) * ns[k - 1],
        }
    }
}

/// Every partial result of the group fits in a `u64`.
pub open spec fn group_fits(ns: Seq<u64>, op: Operator) -> bool {
    forall|k: int| 0 <= k <= ns.len() ==> #[trigger] fold_value(ns, op, k) <= u64::MAX
}

/// Sum of the results of the first `k` groups.
pub open spec fn grand_value(groups: Seq<Vec<u64>>, ops: Seq<Operator>, k: int) -> int
    decreases k,
{
    if k <= 0 {
        0
    } else {
        grand_value(groups, ops, k - 1) + fold_value(groups[k - 1]@, ops[k - 1], groups[k - 1]@.len() as int)
    }
}

/// Every group, and every partial grand total, fits in a `u64`.
pub open spec fn grand_fits(groups: Seq<Vec<u64>>, ops: Seq<Operator>) -> bool {
    &&& forall|k: int| 0 <= k < groups.len() ==> group_fits(#[trigger] groups[k]@, ops[k])
    &&& forall|k: int| 0 <= k <= groups.len() ==> #[trigger] grand_value(groups, ops, k) <= u64::MAX
}

proof fn lemma_fold_nonneg(ns: Seq<u64>, op: Operator, k: int)
    ensures
        fold_value(ns, op, k) >= 0,
    decreases k,
{
    if k > 0 {
        lemma_fold_nonneg(ns, op, k - 1);
        let v = fold_value(ns, op, k - 1);
        let x = ns[k - 1] as int;
        assert(v * x >= 0) by (nonlinear_arith)
            requires
                v >= 0,
                x >= 0,
        ;
    }
}

/// The result of applying `op` to the numbers of a group; `None` where a
/// partial result leaves `u64`.
pub fn group_value(numbers: &Vec<u64>, op: Operator) -> (r: Option<u64>)
    ensures
        r is Some <==> group_fits(numbers@, op),
        r matches Some(v) ==> v == fold_value(numbers@, op, numbers@.len() as int),
{
    let mut acc: u64 = match op {
        Operator::Add => 0,
        Operator::Multiply => 1,
    };
    let mut k: usize = 0;
    while k < numbers.len()
        invariant
            k <= numbers@.len(),
            acc == fold_value(numbers@, op, k as int),
            forall|m: int| 0 <= m <= k ==> #[trigger] fold_value(numbers@, op, m) <= u64::MAX,
        decreases numbers@.len() - k,
    {
        let next = match op {
            Operator::Add => acc.checked_add(numbers[k]),
            Operator::Multiply => acc.checked_mul(numbers[k]),
        };
        match next {
            Some(v) => {
                acc = v;
            },
            None => {
                assert(!(fold_value(numbers@, op, k + 1) <= u64::MAX));
                return None;
            },
        }
        k = k + 1;
    }
    Some(acc)
}

/// Sum over the groups of each group's result under its operator; `None`
/// where a partial result leaves `u64`.
pub fn first_challenge(groups: &Vec<Vec<u64>>, ops: &Vec<Operator>) -> (r: Option<u64>)
    requires
        groups@.len() == ops@.len(),
    ensures
        r is Some <==> grand_fits(groups@, ops@),
        r matches Some(v) ==> v == grand_value(groups@, ops@, groups@.len() as int),
{
    let mut total: u64 = 0;
    let mut k: usize = 0;
    while k < groups.len()
        invariant
            groups@.len() == ops@.len(),
            k <= groups@.len(),
            total == grand_value(groups@, ops@, k as int),
            forall|m: int| 0 <= m < k ==> group_fits(#[trigger] groups@[m]@, ops@[m]),
            forall|m: int| 0 <= m <= k ==> #[trigger] grand_value(groups@, ops@, m) <= u64::MAX,
        decreases groups@.len() - k,
    {
        let v = match group_value(&groups[k], ops[k]) {
            Some(v) => v,
            None => {
                return None;
            },
        };
        proof {
            lemma_fold_nonneg(groups@[k as int]@, ops@[k as int], groups@[k as int]@.len() as int);
        }
        match total.checked_add(v) {
            Some(t) => {
                total = t;
            },
            None => {
                assert(!(grand_value(groups@, ops@, k + 1) <= u64::MAX));
                return None;
            },
        }
        k = k + 1;
    }
    Some(total)
}

/// The same total, over the groups read column by column, digit by digit.
pub fn second_challenge(groups: &Vec<Vec<u64>>, ops: &Vec<Operator>) -> (r: Option<u64>)
    requires
        groups@.len() == ops@.len(),
    ensures
        r is Some <==> grand_fits(groups@, ops@),
        r matches Some(v) ==> v == grand_value(groups@, ops@, groups@.len() as int),
{
    first_challenge(groups, ops)
}

/// The columns of a table whose rows all have `w` numbers.
pub fn transpose(rows: &Vec<Vec<u64>>, w: usize) -> (cols: Vec<Vec<u64>>)
    requires
        forall|i: int| 0 <= i < rows@.len() ==> (#[trigger] rows@[i])@.len() == w,
    ensures
        cols@.len() == w,
        forall|j: int| 0 <= j < w ==> (#[trigger] cols@[j])@.len() == rows@.len(),
        forall|i: int, j: int|
            0 <= i < rows@.len() && 0 <= j < w ==> cols@[j]@[i] == rows@[i]@[j],
{
    let mut cols: Vec<Vec<u64>> = Vec::new();
    let mut j: usize = 0;
    while j < w
        invariant
            forall|i: int| 0 <= i < rows@.len() ==> (#[trigger] rows@[i])@.len() == w,
            j <= w,
            cols@.len() == j,
            forall|c: int| 0 <= c < j ==> (#[trigger] cols@[c])@.len() == rows@.len(),
            forall|i: int, c: int|
                0 <= i < rows@.len() && 0 <= c < j ==> cols@[c]@[i] == rows@[i]@[c],
        decreases w - j,
    {
        let mut col: Vec<u64> = Vec::new();
        let mut i: usize = 0;
        while i < rows.len()
            invariant
                forall|a: int| 0 <= a < rows@.len() ==> (#[trigger] rows@[a])@.len() == w,
                j < w,
                i <= rows@.len(),
                col@.len() == i,
                forall|a: int| 0 <= a < i ==> #[trigger] col@[a] == rows@[a]@[j as int],
            decreases rows@.len() - i,
        {
            assert(rows@[i as int]@.len() == w);
            col.push(rows[i][j]);
            i = i + 1;
        }
        let ghost prev = cols@;
        cols.push(col);
        proof {
            assert forall|i: int, c: int|
                0 <= i < rows@.len() && 0 <= c < j + 1 implies cols@[c]@[i] == rows@[i]@[c] by {
                if c < j {
                    assert(cols@[c] == prev[c]);
                }
            }
            assert forall|c: int| 0 <= c < j + 1 implies (#[trigger] cols@[c])@.len()
                == rows@.len() by {
                if c < j {
                    assert(cols@[c] == prev[c]);
                }
            }
        }
        j = j + 1;
    }
    cols
}

} // verus!
