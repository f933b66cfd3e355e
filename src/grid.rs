//! A rectangular grid of rolls (1) and empty cells (0), and the rolls that
//! fewer than four neighbouring rolls surround.

use vstd::prelude::*;

verus! {

/// Every row of `m` has `w` cells.
pub open spec fn rectangular(m: Seq<Vec<u8>>, w: int) -> bool {
    forall|i: int| 0 <= i < m.len() ==> (#[trigger] m[i])@.len() == w
}

/// Every cell of `m` is 0 or 1.
pub open spec fn binary(m: Seq<Vec<u8>>) -> bool {
    forall|i: int, j: int| 0 <= i < m.len() && 0 <= j < m[i]@.len() ==> #[trigger] m[i]@[j] <= 1
}

pub open spec fn cell(m: Seq<Vec<u8>>, i: int, j: int) -> int {
    m[i]@[j] as int
}

/// Sum of the eight cells around `(i, j)`.
pub open spec fn neighbours(m: Seq<Vec<u8>>, i: int, j: int) -> int {
    cell(m, i - 1, j - 1) + cell(m, i - 1, j) + cell(m, i - 1, j + 1) + cell(m, i, j - 1) + cell(
        m,
        i,
        j + 1,
    ) + cell(m, i + 1, j - 1) + cell(m, i + 1, j) + cell(m, i + 1, j + 1)
}

/// `(i, j)` is off the border of an `m.len()` by `w` grid.
pub open spec fn interior(m: Seq<Vec<u8>>, w: int, i: int, j: int) -> bool {
    1 <= i < m.len() - 1 && 1 <= j < w - 1
}

/// A roll off the border with fewer than four neighbouring rolls.
pub open spec fn accessible(m: Seq<Vec<u8>>, w: int, i: int, j: int) -> bool {
    interior(m, w, i, j) && cell(m, i, j) != 0 && neighbours(m, i, j) < 4
}

/// Number of accessible cells in row `i` with column below `j`.
pub open spec fn count_in_row(m: Seq<Vec<u8>>, w: int, i: int, j: int) -> nat
    decreases j,
{
    if j <= 0 {
        0
    } else {
        count_in_row(m, w, i, j - 1) + if accessible(m, w, i, j - 1) {
            1nat
        } else {
            0nat
        }
    }
}

/// Number of accessible cells in the rows below `i`.
pub open spec fn count_in_rows(m: Seq<Vec<u8>>, w: int, i: int) -> nat
    decreases i,
{
    if i <= 0 {
        0
    } else {
        count_in_rows(m, w, i - 1) + count_in_row(m, w, i - 1, w)
    }
}

/// The cell of the grid padded by a border of zeros.
pub open spec fn padded_cell(m: Seq<Vec<u8>>, w: int, i: int, j: int) -> int {
    if 1 <= i <= m.len() && 1 <= j <= w {
        cell(m, i - 1, j - 1)
    } else {
        0
    }
}

proof fn lemma_count_in_row_le(m: Seq<Vec<u8>>, w: int, i: int, j: int)
    requires
        0 <= j,
    ensures
        count_in_row(m, w, i, j) <= j,
    decreases j,
{
    if j > 0 {
        lemma_count_in_row_le(m, w, i, j - 1);
    }
}

proof fn lemma_count_in_rows_le(m: Seq<Vec<u8>>, w: int, i: int)
    requires
        0 <= i,
        0 <= w,
    ensures
        count_in_rows(m, w, i) <= i * w,
    decreases i,
{
    if i > 0 {
        lemma_count_in_rows_le(m, w, i - 1);
        lemma_count_in_row_le(m, w, i - 1, w);
        assert((i - 1) * w + w == i * w) by (nonlinear_arith);
    }
}

/// A row of `len` zeros.
fn zeros(len: usize) -> (r: Vec<u8>)
    ensures
        r@.len() == len,
        forall|j: int| 0 <= j < len ==> #[trigger] r@[j] == 0,
{
    let mut r: Vec<u8> = Vec::new();
    let mut j: usize = 0;
    while j < len
        invariant
            j <= len,
            r@.len() == j,
            forall|k: int| 0 <= k < j ==> #[trigger] r@[k] == 0,
        decreases len - j,
    {
        r.push(0);
        j = j + 1;
    }
    r
}

/// The grid with a border of zeros around it.
pub fn zero_padding(matrix: Vec<Vec<u8>>) -> (r: Vec<Vec<u8>>)
    requires
        matrix@.len() > 0,
        rectangular(matrix@, matrix@[0]@.len() as int),
        matrix@.len() + 2 <= usize::MAX,
        matrix@[0]@.len() + 2 <= usize::MAX,
    ensures
        r@.len() == matrix@.len() + 2,
        rectangular(r@, matrix@[0]@.len() + 2int),
        forall|i: int, j: int|
            0 <= i < r@.len() && 0 <= j < matrix@[0]@.len() + 2 ==> cell(r@, i, j) == padded_cell(
                matrix@,
                matrix@[0]@.len() as int,
                i,
                j,
            ),
{
    let w = matrix[0].len();
    let h = matrix.len();
    let mut r: Vec<Vec<u8>> = Vec::new();
    r.push(zeros(w + 2));
    let mut i: usize = 0;
    while i < h
        invariant
            h == matrix@.len(),
            w == matrix@[0]@.len(),
            w + 2 <= usize::MAX,
            rectangular(matrix@, w as int),
            i <= h,
            r@.len() == i + 1,
            rectangular(r@, w + 2),
            forall|a: int, j: int|
                0 <= a < i + 1 && 0 <= j < w + 2 ==> cell(r@, a, j) == padded_cell(
                    matrix@,
                    w as int,
                    a,
                    j,
                ),
        decreases h - i,
    {
        let row = &matrix[i];
        let mut new_row: Vec<u8> = Vec::new();
        new_row.push(0);
        let mut j: usize = 0;
        while j < w
            invariant
                row@ == matrix@[i as int]@,
                row@.len() == w,
                j <= w,
                new_row@.len() == j + 1,
                new_row@[0] == 0,
                forall|k: int| 1 <= k <= j ==> #[trigger] new_row@[k] == row@[k - 1],
            decreases w - j,
        {
            new_row.push(row[j]);
            j = j + 1;
        }
        new_row.push(0);
        let ghost prev = r@;
        r.push(new_row);
        proof {
            assert forall|a: int, j: int|
                0 <= a < i + 2 && 0 <= j < w + 2 implies cell(r@, a, j) == padded_cell(
                matrix@,
                w as int,
                a,
                j,
            ) by {
                if a < i + 1 {
                    assert(r@[a] == prev[a]);
                    assert(cell(prev, a, j) == padded_cell(matrix@, w as int, a, j));
                } else if 1 <= j <= w {
                    assert(r@[a]@[j] == row@[j - 1]);
                } else if j == 0 {
                    assert(r@[a]@[0] == 0);
                } else {
                    assert(r@[a]@[w + 1] == 0);
                }
            }
            assert forall|a: int| 0 <= a < r@.len() implies (#[trigger] r@[a])@.len() == w + 2 by {
                if a < i + 1 {
                    assert(r@[a] == prev[a]);
                }
            }
        }
        i = i + 1;
    }
    let ghost prev = r@;
    r.push(zeros(w + 2));
    proof {
        assert forall|a: int, j: int|
            0 <= a < r@.len() && 0 <= j < w + 2 implies cell(r@, a, j) == padded_cell(
            matrix@,
            w as int,
            a,
            j,
        ) by {
            if a < h + 1 {
                assert(r@[a] == prev[a]);
                assert(cell(prev, a, j) == padded_cell(matrix@, w as int, a, j));
            } else {
                assert(r@[a]@[j] == 0);
            }
        }
        assert forall|a: int| 0 <= a < r@.len() implies (#[trigger] r@[a])@.len() == w + 2 by {
            if a < h + 1 {
                assert(r@[a] == prev[a]);
            }
        }
    }
    r
}

/// Is `(i, j)` a roll off the border with fewer than four neighbouring rolls?
pub fn is_removable(matrix: &Vec<Vec<u8>>, i: usize, j: usize) -> (r: bool)
    requires
        matrix@.len() > 0,
        rectangular(matrix@, matrix@[0]@.len() as int),
        binary(matrix@),
        i < matrix@.len(),
        j < matrix@[0]@.len(),
    ensures
        r == accessible(matrix@, matrix@[0]@.len() as int, i as int, j as int),
{
    let w = matrix[0].len();
    let h = matrix.len();
    if matrix[i][j] == 1 && i > 0 && i + 1 < h && j > 0 && j + 1 < w {
        assert(matrix@[i - 1]@.len() == w && matrix@[i + 1]@.len() == w);
        let count = matrix[i - 1][j - 1] + matrix[i - 1][j] + matrix[i - 1][j + 1] + matrix[i][j
            - 1] + matrix[i][j + 1] + matrix[i + 1][j - 1] + matrix[i + 1][j] + matrix[i + 1][j
            + 1];
        count < 4
    } else {
        false
    }
}

/// Number of rolls off the border with fewer than four neighbouring rolls.
pub fn count_adjacent(matrix: &Vec<Vec<u8>>) -> (r: u64)
    requires
        matrix@.len() > 0,
        rectangular(matrix@, matrix@[0]@.len() as int),
        binary(matrix@),
        matrix@.len() * matrix@[0]@.len() <= u64::MAX,
    ensures
        r == count_in_rows(matrix@, matrix@[0]@.len() as int, matrix@.len() as int),
{
    let w = matrix[0].len();
    let h = matrix.len();
    let ghost wi = w as int;
    let mut count: u64 = 0;
    let mut i: usize = 0;
    while i < h
        invariant
            h == matrix@.len(),
            w == matrix@[0]@.len(),
            h > 0,
            h * w <= u64::MAX,
            rectangular(matrix@, w as int),
            binary(matrix@),
            i <= h,
            wi == w,
            count == count_in_rows(matrix@, wi, i as int),
        decreases h - i,
    {
        let mut j: usize = 0;
        let ghost base = count as int;
        proof {
            lemma_count_in_rows_le(matrix@, wi, i as int);
            assert((i as int) * wi + wi <= h * w) by (nonlinear_arith)
                requires
                    i < h,
                    wi == w,
            ;
        }
        while j < w
            invariant
                h == matrix@.len(),
                w == matrix@[0]@.len(),
                rectangular(matrix@, w as int),
                binary(matrix@),
                i < h,
                j <= w,
                wi == w,
                base + wi <= u64::MAX,
                count == base + count_in_row(matrix@, wi, i as int, j as int),
            decreases w - j,
        {
            proof {
                lemma_count_in_row_le(matrix@, wi, i as int, j as int);
            }
            if is_removable(matrix, i, j) {
                count = count + 1;
            }
            j = j + 1;
        }
        i = i + 1;
    }
    count
}

/// Number of accessible rolls of the grid, its border included once padded.
pub fn first_challenge(grid: Vec<Vec<u8>>) -> (r: u64)
    requires
        grid@.len() > 0,
        rectangular(grid@, grid@[0]@.len() as int),
        binary(grid@),
        grid@.len() + 2 <= usize::MAX,
        grid@[0]@.len() + 2 <= usize::MAX,
        (grid@.len() + 2) * (grid@[0]@.len() + 2) <= u64::MAX,
    ensures
        exists|p: Seq<Vec<u8>>|
            p.len() == grid@.len() + 2 && rectangular(p, grid@[0]@.len() + 2int) && (forall|
                i: int,
                j: int,
            |
                0 <= i < p.len() && 0 <= j < grid@[0]@.len() + 2 ==> cell(p, i, j) == padded_cell(
                    grid@,
                    grid@[0]@.len() as int,
                    i,
                    j,
                )) && r == #[trigger] count_in_rows(p, grid@[0]@.len() + 2int, p.len() as int),
{
    let ghost w = grid@[0]@.len() as int;
    let p = zero_padding(grid);
    proof {
        assert forall|i: int, j: int| 0 <= i < p@.len() && 0 <= j < p@[i]@.len() implies #[trigger] p@[i]@[j]
            <= 1 by {
            assert(cell(p@, i, j) == padded_cell(grid@, w, i, j));
            if 1 <= i <= grid@.len() && 1 <= j <= w {
                assert(grid@[i - 1]@.len() == w);
            }
        }
        assert(p@[0]@.len() == w + 2);
    }
    count_adjacent(&p)
}

/// Where `x` holds, 1; else 0.
pub open spec fn one_if(x: bool) -> int {
    if x {
        1
    } else {
        0
    }
}

/// The rolls of `m`.
pub open spec fn rolls_of(m: Seq<Vec<u8>>) -> spec_fn(int, int) -> bool {
    |i: int, j: int| 0 <= i < m.len() && 0 <= j < m[i]@.len() && m[i]@[j] == 1
}

/// Number of cells of `s` among the eight around `(i, j)`.
pub open spec fn neighbours_in(s: spec_fn(int, int) -> bool, i: int, j: int) -> int {
    one_if(s(i - 1, j - 1)) + one_if(s(i - 1, j)) + one_if(s(i - 1, j + 1)) + one_if(s(i, j - 1))
        + one_if(s(i, j + 1)) + one_if(s(i + 1, j - 1)) + one_if(s(i + 1, j)) + one_if(
        s(i + 1, j + 1),
    )
}

/// `s` is a set of rolls of `m` in which every roll has at least four neighbours.
pub open spec fn stable(m: Seq<Vec<u8>>, s: spec_fn(int, int) -> bool) -> bool {
    forall|i: int, j: int| #[trigger] s(i, j) ==> rolls_of(m)(i, j) && neighbours_in(s, i, j) >= 4
}

pub open spec fn within(s: spec_fn(int, int) -> bool, t: spec_fn(int, int) -> bool) -> bool {
    forall|i: int, j: int| #[trigger] s(i, j) ==> t(i, j)
}

/// Every cell on the border of `m` is empty.
pub open spec fn border_empty(m: Seq<Vec<u8>>, w: int) -> bool {
    forall|i: int, j: int|
        0 <= i < m.len() && 0 <= j < w && !interior(m, w, i, j) ==> #[trigger] m[i]@[j] == 0
}

/// Number of rolls in row `i` with column below `j`.
pub open spec fn rolls_in_row(m: Seq<Vec<u8>>, i: int, j: int) -> nat
    decreases j,
{
    if j <= 0 {
        0
    } else {
        rolls_in_row(m, i, j - 1) + if m[i]@[j - 1] == 1 {
            1nat
        } else {
            0nat
        }
    }
}

/// Number of rolls in the rows below `i`.
pub open spec fn rolls_in_rows(m: Seq<Vec<u8>>, w: int, i: int) -> nat
    decreases i,
{
    if i <= 0 {
        0
    } else {
        rolls_in_rows(m, w, i - 1) + rolls_in_row(m, i - 1, w)
    }
}

/// `n` is `m` with its accessible rolls removed.
pub open spec fn eroded(m: Seq<Vec<u8>>, n: Seq<Vec<u8>>, w: int) -> bool {
    &&& n.len() == m.len()
    &&& rectangular(n, w)
    &&& forall|i: int, j: int|
        0 <= i < m.len() && 0 <= j < w ==> #[trigger] n[i]@[j] == if accessible(m, w, i, j) {
            0
        } else {
            m[i]@[j]
        }
}

proof fn lemma_rolls_eroded_row(m: Seq<Vec<u8>>, n: Seq<Vec<u8>>, w: int, i: int, j: int)
    requires
        eroded(m, n, w),
        rectangular(m, w),
        binary(m),
        0 <= i < m.len(),
        0 <= j <= w,
    ensures
        rolls_in_row(n, i, j) + count_in_row(m, w, i, j) == rolls_in_row(m, i, j),
    decreases j,
{
    if j > 0 {
        lemma_rolls_eroded_row(m, n, w, i, j - 1);
        assert(n[i]@[j - 1] == if accessible(m, w, i, j - 1) {
            0
        } else {
            m[i]@[j - 1]
        });
    }
}

proof fn lemma_rolls_eroded(m: Seq<Vec<u8>>, n: Seq<Vec<u8>>, w: int, i: int)
    requires
        eroded(m, n, w),
        rectangular(m, w),
        binary(m),
        0 <= i <= m.len(),
        0 <= w,
    ensures
        rolls_in_rows(n, w, i) + count_in_rows(m, w, i) == rolls_in_rows(m, w, i),
    decreases i,
{
    if i > 0 {
        lemma_rolls_eroded(m, n, w, i - 1);
        lemma_rolls_eroded_row(m, n, w, i - 1, w);
    }
}

proof fn lemma_accessible_counted(m: Seq<Vec<u8>>, w: int, a: int, b: int, i: int, j: int)
    requires
        0 <= a < i,
        0 <= b < w,
        j == w,
        accessible(m, w, a, b),
    ensures
        count_in_rows(m, w, i) >= 1,
    decreases i,
{
    if a < i - 1 {
        lemma_accessible_counted(m, w, a, b, i - 1, j);
    } else {
        lemma_accessible_in_row(m, w, a, b, w);
    }
}

proof fn lemma_accessible_in_row(m: Seq<Vec<u8>>, w: int, a: int, b: int, j: int)
    requires
        0 <= b < j,
        accessible(m, w, a, b),
    ensures
        count_in_row(m, w, a, j) >= 1,
    decreases j,
{
    if b < j - 1 {
        lemma_accessible_in_row(m, w, a, b, j - 1);
    }
}

proof fn lemma_rolls_le(m: Seq<Vec<u8>>, w: int, i: int)
    requires
        0 <= i,
        0 <= w,
    ensures
        rolls_in_rows(m, w, i) <= i * w,
    decreases i,
{
    if i > 0 {
        lemma_rolls_le(m, w, i - 1);
        lemma_rolls_row_le(m, i - 1, w);
        assert((i - 1) * w + w == i * w) by (nonlinear_arith);
    }
}

proof fn lemma_rolls_row_le(m: Seq<Vec<u8>>, i: int, j: int)
    requires
        0 <= j,
    ensures
        rolls_in_row(m, i, j) <= j,
    decreases j,
{
    if j > 0 {
        lemma_rolls_row_le(m, i, j - 1);
    }
}

/// The grid with its accessible rolls removed, and how many were removed.
fn erode_once(m: &Vec<Vec<u8>>) -> (res: (Vec<Vec<u8>>, u64))
    requires
        m@.len() > 0,
        rectangular(m@, m@[0]@.len() as int),
        binary(m@),
        m@.len() * m@[0]@.len() <= u64::MAX,
    ensures
        eroded(m@, res.0@, m@[0]@.len() as int),
        res.1 == count_in_rows(m@, m@[0]@.len() as int, m@.len() as int),
{
    let h = m.len();
    let w = m[0].len();
    let mut n: Vec<Vec<u8>> = Vec::new();
    let mut i: usize = 0;
    while i < h
        invariant
            h == m@.len(),
            w == m@[0]@.len(),
            h > 0,
            rectangular(m@, w as int),
            binary(m@),
            i <= h,
            n@.len() == i,
            rectangular(n@, w as int),
            forall|a: int, j: int|
                0 <= a < i && 0 <= j < w ==> #[trigger] n@[a]@[j] == if accessible(m@, w as int, a, j) {
                    0
                } else {
                    m@[a]@[j]
                },
        decreases h - i,
    {
        let mut row: Vec<u8> = Vec::new();
        let mut j: usize = 0;
        while j < w
            invariant
                h == m@.len(),
                w == m@[0]@.len(),
                h > 0,
                rectangular(m@, w as int),
                binary(m@),
                i < h,
                j <= w,
                row@.len() == j,
                forall|b: int| 0 <= b < j ==> #[trigger] row@[b] == if accessible(m@, w as int, i as int, b) {
                    0
                } else {
                    m@[i as int]@[b]
                },
            decreases w - j,
        {
            assert(m@[i as int]@.len() == w);
            let v = if is_removable(m, i, j) {
                0
            } else {
                m[i][j]
            };
            row.push(v);
            j = j + 1;
        }
        let ghost prev = n@;
        n.push(row);
        proof {
            assert forall|a: int, j: int|
                0 <= a < i + 1 && 0 <= j < w implies #[trigger] n@[a]@[j] == if accessible(m@, w as int, a, j) {
                0
            } else {
                m@[a]@[j]
            } by {
                if a < i {
                    assert(n@[a] == prev[a]);
                }
            }
            assert forall|a: int| 0 <= a < n@.len() implies (#[trigger] n@[a])@.len() == w by {
                if a < i {
                    assert(n@[a] == prev[a]);
                }
            }
        }
        i = i + 1;
    }
    let removed = count_adjacent(m);
    (n, removed)
}

/// Where no roll of `cur` is accessible, its rolls form a stable set of `orig`.
proof fn lemma_no_access_stable(orig: Seq<Vec<u8>>, cur: Seq<Vec<u8>>, w: int)
    requires
        cur.len() > 0,
        rectangular(cur, w),
        binary(cur),
        border_empty(cur, w),
        within(rolls_of(cur), rolls_of(orig)),
        count_in_rows(cur, w, cur.len() as int) == 0,
    ensures
        stable(orig, rolls_of(cur)),
{
    assert forall|i: int, j: int| #[trigger] rolls_of(cur)(i, j) implies rolls_of(orig)(i, j)
        && neighbours_in(rolls_of(cur), i, j) >= 4 by {
        assert(cur[i]@.len() == w);
        if !interior(cur, w, i, j) {
            assert(cur[i]@[j] == 0);
        } else {
            if accessible(cur, w, i, j) {
                lemma_accessible_counted(cur, w, i, j, cur.len() as int, w);
            }
            assert(cur[i - 1]@.len() == w && cur[i + 1]@.len() == w);
        }
    }
}

/// One round of erosion keeps the grid's shape and every stable set of `orig`.
proof fn lemma_erosion_keeps(orig: Seq<Vec<u8>>, cur: Seq<Vec<u8>>, n: Seq<Vec<u8>>, w: int)
    requires
        cur.len() > 0,
        rectangular(cur, w),
        binary(cur),
        border_empty(cur, w),
        eroded(cur, n, w),
        within(rolls_of(cur), rolls_of(orig)),
        forall|s: spec_fn(int, int) -> bool| #[trigger] stable(orig, s) ==> within(s, rolls_of(cur)),
    ensures
        binary(n),
        border_empty(n, w),
        within(rolls_of(n), rolls_of(orig)),
        forall|s: spec_fn(int, int) -> bool| #[trigger] stable(orig, s) ==> within(s, rolls_of(n)),
{
    assert forall|i: int, j: int| 0 <= i < n.len() && 0 <= j < n[i]@.len() implies #[trigger] n[i]@[j]
        <= 1 by {
        assert(cur[i]@.len() == w);
    }
    assert forall|i: int, j: int|
        0 <= i < n.len() && 0 <= j < w && !interior(n, w, i, j) implies #[trigger] n[i]@[j] == 0 by {
        assert(cur[i]@.len() == w);
    }
    assert forall|i: int, j: int| #[trigger] rolls_of(n)(i, j) implies rolls_of(orig)(i, j) by {
        assert(cur[i]@.len() == w);
        assert(rolls_of(cur)(i, j));
    }
    assert forall|s: spec_fn(int, int) -> bool| #[trigger] stable(orig, s) implies within(
        s,
        rolls_of(n),
    ) by {
        assert(within(s, rolls_of(cur)));
        assert forall|i: int, j: int| #[trigger] s(i, j) implies rolls_of(n)(i, j) by {
            lemma_stable_cell_kept(orig, cur, n, w, s, i, j);
        }
    }
}

proof fn lemma_stable_cell_kept(
    orig: Seq<Vec<u8>>,
    cur: Seq<Vec<u8>>,
    n: Seq<Vec<u8>>,
    w: int,
    s: spec_fn(int, int) -> bool,
    i: int,
    j: int,
)
    requires
        rectangular(cur, w),
        binary(cur),
        eroded(cur, n, w),
        stable(orig, s),
        within(s, rolls_of(cur)),
        s(i, j),
    ensures
        rolls_of(n)(i, j),
{
    assert(rolls_of(cur)(i, j));
    assert(cur[i]@.len() == w);
    if interior(cur, w, i, j) {
        assert(cur[i - 1]@.len() == w && cur[i + 1]@.len() == w);
        assert(neighbours_in(s, i, j) >= 4);
        assert(s(i - 1, j - 1) ==> rolls_of(cur)(i - 1, j - 1));
        assert(s(i - 1, j) ==> rolls_of(cur)(i - 1, j));
        assert(s(i - 1, j + 1) ==> rolls_of(cur)(i - 1, j + 1));
        assert(s(i, j - 1) ==> rolls_of(cur)(i, j - 1));
        assert(s(i, j + 1) ==> rolls_of(cur)(i, j + 1));
        assert(s(i + 1, j - 1) ==> rolls_of(cur)(i + 1, j - 1));
        assert(s(i + 1, j) ==> rolls_of(cur)(i + 1, j));
        assert(s(i + 1, j + 1) ==> rolls_of(cur)(i + 1, j + 1));
        assert(!accessible(cur, w, i, j));
    }
    assert(n[i]@[j] == cur[i]@[j]);
}

/// Removes accessible rolls round after round until none is left; returns the
/// grid that remains and the number of rolls removed.
pub fn erode(m: Vec<Vec<u8>>) -> (res: (Vec<Vec<u8>>, u64))
    requires
        m@.len() > 0,
        rectangular(m@, m@[0]@.len() as int),
        binary(m@),
        border_empty(m@, m@[0]@.len() as int),
        m@.len() * m@[0]@.len() <= u64::MAX,
    ensures
        res.0@.len() == m@.len(),
        rectangular(res.0@, m@[0]@.len() as int),
        stable(m@, rolls_of(res.0@)),
        forall|s: spec_fn(int, int) -> bool| #[trigger] stable(m@, s) ==> within(s, rolls_of(res.0@)),
        res.1 == rolls_in_rows(m@, m@[0]@.len() as int, m@.len() as int) - rolls_in_rows(
            res.0@,
            m@[0]@.len() as int,
            m@.len() as int,
        ),
{
    let h = m.len();
    let w = m[0].len();
    let ghost wi = w as int;
    let ghost orig = m@;
    let mut cur = m;
    let mut total: u64 = 0;
    proof {
        lemma_rolls_le(orig, wi, h as int);
    }
    loop
        invariant
            m@ == orig,
            h == orig.len(),
            w == orig[0]@.len(),
            wi == w,
            h > 0,
            h * w <= u64::MAX,
            rectangular(orig, wi),
            cur@.len() == h,
            rectangular(cur@, wi),
            binary(cur@),
            border_empty(cur@, wi),
            within(rolls_of(cur@), rolls_of(orig)),
            forall|s: spec_fn(int, int) -> bool| #[trigger] stable(orig, s) ==> within(s, rolls_of(cur@)),
            total + rolls_in_rows(cur@, wi, h as int) == rolls_in_rows(orig, wi, h as int),
            rolls_in_rows(orig, wi, h as int) <= h * w,
        decreases rolls_in_rows(cur@, wi, h as int),
    {
        assert(cur@[0]@.len() == w);
        let (next, removed) = erode_once(&cur);
        proof {
            lemma_rolls_eroded(cur@, next@, wi, h as int);
        }
        if removed == 0 {
            proof {
                lemma_no_access_stable(orig, cur@, wi);
            }
            return (cur, total);
        }
        proof {
            lemma_erosion_keeps(orig, cur@, next@, wi);
        }
        total = total + removed;
        cur = next;
    }
}

/// `p` is `grid` with a border of zeros around it.
pub open spec fn pads(grid: Seq<Vec<u8>>, p: Seq<Vec<u8>>) -> bool {
    &&& p.len() == grid.len() + 2
    &&& rectangular(p, grid[0]@.len() + 2int)
    &&& forall|i: int, j: int|
        0 <= i < p.len() && 0 <= j < grid[0]@.len() + 2 ==> cell(p, i, j) == padded_cell(
            grid,
            grid[0]@.len() as int,
            i,
            j,
        )
}

/// The rolls of `f` are the largest stable set of `p`: stable, and holding
/// every stable set of `p`.
pub open spec fn greatest_stable(p: Seq<Vec<u8>>, f: Seq<Vec<u8>>) -> bool {
    &&& stable(p, rolls_of(f))
    &&& forall|s: spec_fn(int, int) -> bool| #[trigger] stable(p, s) ==> within(s, rolls_of(f))
}

/// Number of rolls that can be removed, round after round, until every roll
/// left has at least four neighbouring rolls: all rolls but the largest set in
/// which every roll has four neighbours within the set.
pub fn second_challenge(grid: Vec<Vec<u8>>) -> (r: u64)
    requires
        grid@.len() > 0,
        rectangular(grid@, grid@[0]@.len() as int),
        binary(grid@),
        grid@.len() + 2 <= usize::MAX,
        grid@[0]@.len() + 2 <= usize::MAX,
        (grid@.len() + 2) * (grid@[0]@.len() + 2) <= u64::MAX,
    ensures
        exists|p: Seq<Vec<u8>>, f: Seq<Vec<u8>>|
            #[trigger] pads(grid@, p) && #[trigger] greatest_stable(p, f) && f.len() == p.len()
                && rectangular(f, grid@[0]@.len() + 2int) && r == rolls_in_rows(
                p,
                grid@[0]@.len() + 2int,
                p.len() as int,
            ) - rolls_in_rows(f, grid@[0]@.len() + 2int, p.len() as int),
{
    let ghost w = grid@[0]@.len() as int;
    let p = zero_padding(grid);
    proof {
        assert forall|i: int, j: int| 0 <= i < p@.len() && 0 <= j < p@[i]@.len() implies #[trigger] p@[i]@[j]
            <= 1 by {
            assert(cell(p@, i, j) == padded_cell(grid@, w, i, j));
            if 1 <= i <= grid@.len() && 1 <= j <= w {
                assert(grid@[i - 1]@.len() == w);
            }
        }
        assert forall|i: int, j: int|
            0 <= i < p@.len() && 0 <= j < w + 2 && !interior(p@, w + 2, i, j) implies #[trigger] p@[i]@[j] == 0 by {
            assert(cell(p@, i, j) == padded_cell(grid@, w, i, j));
        }
        assert(p@[0]@.len() == w + 2);
        assert(pads(grid@, p@));
    }
    let ghost pv = p@;
    let (f, removed) = erode(p);
    proof {
        assert(greatest_stable(pv, f@));
    }
    removed
}

} // verus!
