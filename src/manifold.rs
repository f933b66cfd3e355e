//! Beams falling row by row through a manifold of splitters: each active
//! splitter sends the beams that reach it to its left and right neighbours.

use vstd::prelude::*;

verus! {

#[derive(Debug, Clone, Copy, PartialEq, Eq, Structural)]
pub enum State {
    Source,
    Splitter,
    /// The number of beams in the cell.
    Beam(u64),
}

pub open spec fn level(s: State) -> int {
    match s {
        State::Beam(n) => n as int,
        _ => 0,
    }
}

/// A splitter at `k` that beams from the row above reach.
pub open spec fn active(prev: Seq<State>, row: Seq<State>, k: int) -> bool {
    0 <= k < row.len() && row[k] is Splitter && level(prev[k]) > 0
}

/// Beams that the splitter at `k` sends sideways.
pub open spec fn inflow(prev: Seq<State>, row: Seq<State>, k: int) -> int {
    if active(prev, row, k) {
        level(prev[k])
    } else {
        0
    }
}

/// Beams in cell `j` of the new row: those already there, those falling from
/// above, and those split from both sides; below the source a single beam
/// starts, to which only the right-hand splitter adds.
pub open spec fn next_level(prev: Seq<State>, row: Seq<State>, j: int) -> int {
    if prev[j] is Source {
        1 + inflow(prev, row, j + 1)
    } else {
        level(row[j]) + level(prev[j]) + inflow(prev, row, j - 1) + inflow(prev, row, j + 1)
    }
}

pub open spec fn next_cell(prev: Seq<State>, row: Seq<State>, j: int) -> State {
    if row[j] is Beam {
        State::Beam(next_level(prev, row, j) as u64)
    } else {
        row[j]
    }
}

pub open spec fn next_row(prev: Seq<State>, row: Seq<State>) -> Seq<State> {
    Seq::new(row.len(), |j: int| next_cell(prev, row, j))
}

/// Every active splitter has beam cells beside it, and every beam count of the
/// new row fits in a `u64`.
pub open spec fn row_ok(prev: Seq<State>, row: Seq<State>) -> bool {
    &&& forall|k: int|
        #[trigger] active(prev, row, k) ==> (k == 0 || row[k - 1] is Beam) && (k == row.len() - 1
            || row[k + 1] is Beam)
    &&& forall|j: int| 0 <= j < row.len() && row[j] is Beam ==> #[trigger] next_level(prev, row, j) <= u64::MAX
}

/// Row `i` of the manifold once the beams have fallen through it.
pub open spec fn simulated(m: Seq<Vec<State>>, i: int) -> Seq<State>
    decreases i,
{
    if i <= 0 {
        m[0]@
    } else {
        next_row(simulated(m, i - 1), m[i]@)
    }
}

/// Number of active splitters among the first `k` cells of a row.
pub open spec fn splits(prev: Seq<State>, row: Seq<State>, k: int) -> nat
    decreases k,
{
    if k <= 0 {
        0
    } else {
        splits(prev, row, k - 1) + if active(prev, row, k - 1) {
            1nat
        } else {
            0nat
        }
    }
}

/// Number of splits in rows `1..=i`.
pub open spec fn total_splits(m: Seq<Vec<State>>, i: int) -> nat
    decreases i,
{
    if i <= 0 {
        0
    } else {
        total_splits(m, i - 1) + splits(simulated(m, i - 1), m[i]@, m[i]@.len() as int)
    }
}

/// Number of cells of a manifold whose rows have the length of the first.
pub open spec fn cells(m: Seq<Vec<State>>) -> int {
    if m.len() > 0 {
        (m.len() * m[0]@.len()) as int
    } else {
        0
    }
}

/// Every row below the first can be simulated.
pub open spec fn all_rows_ok(m: Seq<Vec<State>>) -> bool {
    forall|i: int| 1 <= i < m.len() ==> #[trigger] row_ok(simulated(m, i - 1), m[i]@)
}

proof fn lemma_splits_le(prev: Seq<State>, row: Seq<State>, k: int)
    requires
        0 <= k,
    ensures
        splits(prev, row, k) <= k,
    decreases k,
{
    if k > 0 {
        lemma_splits_le(prev, row, k - 1);
    }
}

fn level_of(s: State) -> (r: u64)
    ensures
        r == level(s),
{
    match s {
        State::Beam(n) => n,
        _ => 0,
    }
}

/// The row below `prev` after the beams fall through `row`, with its number of
/// splits; `None` where the row cannot be simulated.
fn step_row(prev: &Vec<State>, row: &Vec<State>) -> (r: Option<(Vec<State>, u64)>)
    requires
        prev@.len() == row@.len(),
    ensures
        r is None <==> !row_ok(prev@, row@),
        r matches Some((n, c)) ==> n@ == next_row(prev@, row@) && c == splits(prev@, row@, row@.len() as int),
{
    let w = row.len();
    let mut k: usize = 0;
    let mut c: u64 = 0;
    while k < w
        invariant
            w == row@.len(),
            prev@.len() == w,
            k <= w,
            c == splits(prev@, row@, k as int),
            c <= k,
            forall|a: int|
                0 <= a < k && #[trigger] active(prev@, row@, a) ==> (a == 0 || row@[a - 1] is Beam) && (a
                    == w - 1 || row@[a + 1] is Beam),
        decreases w - k,
    {
        let is_active = match row[k] {
            State::Splitter => level_of(prev[k]) > 0,
            _ => false,
        };
        if is_active {
            let left_ok = k == 0 || matches!(row[k - 1], State::Beam(_));
            let right_ok = k + 1 == w || matches!(row[k + 1], State::Beam(_));
            if !left_ok || !right_ok {
                assert(active(prev@, row@, k as int));
                return None;
            }
            c = c + 1;
        }
        k = k + 1;
    }
    let mut n: Vec<State> = Vec::new();
    let mut j: usize = 0;
    while j < w
        invariant
            w == row@.len(),
            prev@.len() == w,
            j <= w,
            n@.len() == j,
            c == splits(prev@, row@, w as int),
            forall|a: int|
                #[trigger] active(prev@, row@, a) ==> (a == 0 || row@[a - 1] is Beam) && (a == w - 1
                    || row@[a + 1] is Beam),
            forall|a: int| 0 <= a < j ==> #[trigger] n@[a] == next_cell(prev@, row@, a),
            forall|a: int|
                0 <= a < j && row@[a] is Beam ==> #[trigger] next_level(prev@, row@, a) <= u64::MAX,
        decreases w - j,
    {
        let cell = match row[j] {
            State::Beam(b) => {
                let right: u128 = if j + 1 < w && matches!(row[j + 1], State::Splitter) {
                    level_of(prev[j + 1]) as u128
                } else {
                    0
                };
                let left: u128 = if j > 0 && matches!(row[j - 1], State::Splitter) {
                    level_of(prev[j - 1]) as u128
                } else {
                    0
                };
                let total: u128 = if matches!(prev[j], State::Source) {
                    1 + right
                } else {
                    b as u128 + level_of(prev[j]) as u128 + left + right
                };
                assert(total == next_level(prev@, row@, j as int));
                if total > u64::MAX as u128 {
                    return None;
                }
                State::Beam(total as u64)
            },
            other => other,
        };
        n.push(cell);
        j = j + 1;
    }
    Some((n, c))
}

/// The manifold with the beams fallen through every row, and the number of
/// splits; `None` where it has no row or a row cannot be simulated.
pub fn simulate_manifold(manifold: &Vec<Vec<State>>) -> (r: Option<(Vec<Vec<State>>, u64)>)
    requires
        manifold@.len() > 0 ==> forall|i: int|
            0 <= i < manifold@.len() ==> (#[trigger] manifold@[i])@.len() == manifold@[0]@.len(),
        cells(manifold@) <= u64::MAX,
    ensures
        r is None <==> manifold@.len() == 0 || !all_rows_ok(manifold@),
        r matches Some((rows, c)) ==> rows@.len() == manifold@.len() && (forall|i: int|
            0 <= i < rows@.len() ==> (#[trigger] rows@[i])@ == simulated(manifold@, i)) && c
            == total_splits(manifold@, manifold@.len() - 1),
{
    let h = manifold.len();
    if h == 0 {
        return None;
    }
    let w = manifold[0].len();
    let mut rows: Vec<Vec<State>> = Vec::new();
    let mut first: Vec<State> = Vec::new();
    let mut j: usize = 0;
    while j < w
        invariant
            h == manifold@.len(),
            h > 0,
            w == manifold@[0]@.len(),
            j <= w,
            first@.len() == j,
            forall|a: int| 0 <= a < j ==> #[trigger] first@[a] == manifold@[0]@[a],
        decreases w - j,
    {
        first.push(manifold[0][j]);
        j = j + 1;
    }
    assert(first@ == simulated(manifold@, 0));
    rows.push(first);
    let mut c: u64 = 0;
    let mut i: usize = 1;
    while i < h
        invariant
            h == manifold@.len(),
            h > 0,
            w == manifold@[0]@.len(),
            h * w <= u64::MAX,
            forall|a: int| 0 <= a < h ==> (#[trigger] manifold@[a])@.len() == w,
            1 <= i <= h,
            rows@.len() == i,
            forall|a: int| 0 <= a < i ==> (#[trigger] rows@[a])@ == simulated(manifold@, a),
            forall|a: int| 1 <= a < i ==> #[trigger] row_ok(simulated(manifold@, a - 1), manifold@[a]@),
            c == total_splits(manifold@, i - 1),
            c <= (i - 1) * w,
        decreases h - i,
    {
        assert(rows@[i - 1]@ == simulated(manifold@, i - 1));
        assert(rows@[i - 1]@.len() == w) by {
            assert(simulated(manifold@, i - 1).len() == w) by {
                if i - 1 > 0 {
                    assert(manifold@[i - 1]@.len() == w);
                }
            }
        }
        let stepped = step_row(&rows[i - 1], &manifold[i]);
        match stepped {
            None => {
                return None;
            },
            Some((n, s)) => {
                proof {
                    lemma_splits_le(simulated(manifold@, i - 1), manifold@[i as int]@, w as int);
                    assert((i - 1) * w + w == i * w) by (nonlinear_arith);
                    assert(i * w <= h * w) by (nonlinear_arith)
                        requires
                            i <= h,
                    ;
                }
                c = c + s;
                rows.push(n);
            },
        }
        i = i + 1;
    }
    Some((rows, c))
}

/// Number of splits as the beams fall through the manifold.
pub fn first_challenge(manifold: &Vec<Vec<State>>) -> (r: Option<u64>)
    requires
        manifold@.len() > 0 ==> forall|i: int|
            0 <= i < manifold@.len() ==> (#[trigger] manifold@[i])@.len() == manifold@[0]@.len(),
        cells(manifold@) <= u64::MAX,
    ensures
        r is None <==> manifold@.len() == 0 || !all_rows_ok(manifold@),
        r matches Some(c) ==> c == total_splits(manifold@, manifold@.len() - 1),
{
    match simulate_manifold(manifold) {
        Some((_, c)) => Some(c),
        None => None,
    }
}

/// Beams in the first `k` cells of a row.
pub open spec fn beams(row: Seq<State>, k: int) -> int
    decreases k,
{
    if k <= 0 {
        0
    } else {
        beams(row, k - 1) + level(row[k - 1])
    }
}

/// Number of beams that reach the last row.
pub fn second_challenge(manifold: &Vec<Vec<State>>) -> (r: Option<u128>)
    requires
        manifold@.len() > 0 ==> forall|i: int|
            0 <= i < manifold@.len() ==> (#[trigger] manifold@[i])@.len() == manifold@[0]@.len(),
        cells(manifold@) <= u64::MAX,
    ensures
        r is None <==> manifold@.len() == 0 || !all_rows_ok(manifold@),
        r matches Some(t) ==> t == beams(
            simulated(manifold@, manifold@.len() - 1),
            manifold@[0]@.len() as int,
        ),
{
    let (rows, _) = match simulate_manifold(manifold) {
        Some(x) => x,
        None => {
            return None;
        },
    };
    let last = &rows[rows.len() - 1];
    let mut t: u128 = 0;
    let mut j: usize = 0;
    while j < last.len()
        invariant
            j <= last@.len(),
            t == beams(last@, j as int),
            t <= j * 0x1_0000_0000_0000_0000,
        decreases last@.len() - j,
    {
        let v = level_of(last[j]);
        assert(t + v <= (j + 1) * 0x1_0000_0000_0000_0000);
        assert((j + 1) * 0x1_0000_0000_0000_0000 <= 0x1_0000_0000_0000_0000 * 0x1_0000_0000_0000_0000) by (nonlinear_arith)
            requires
                j < 0x1_0000_0000_0000_0000,
        ;
        t = t + v as u128;
        j = j + 1;
    }
    proof {
        assert(last@.len() == manifold@[0]@.len()) by {
            if manifold@.len() > 1 {
                assert(manifold@[manifold@.len() - 1]@.len() == manifold@[0]@.len());
            }
        }
    }
    Some(t)
}

} // verus!
