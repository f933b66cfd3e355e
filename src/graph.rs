//! Points in three-dimensional integer space and the complete graph over them,
//! its edges weighted by squared Euclidean distance.

use vstd::prelude::*;
use crate::error::ClusterError;

verus! {

/// Largest coordinate magnitude for which squared distances fit in a `u128`.
pub const COORD_LIMIT: i64 = 0x4000_0000_0000_0000;

/// Largest number of points for which the number of edges fits in a `usize` on
/// every target.
pub const MAX_POINTS: usize = 0x1_0000;

#[derive(Debug, Clone, Copy, PartialEq, Eq, Structural)]
pub struct Point {
    pub x: i64,
    pub y: i64,
    pub z: i64,
}

/// An edge between points `a < b`, weighted by their squared distance. Ordering
/// by squared distance is ordering by distance.
#[derive(Debug, Clone, Copy, PartialEq, Eq, Structural)]
pub struct Edge {
    pub a: usize,
    pub b: usize,
    pub dist2: u128,
}

pub open spec fn coord_ok(c: i64) -> bool {
    -COORD_LIMIT <= c <= COORD_LIMIT
}

pub open spec fn point_ok(p: Point) -> bool {
    coord_ok(p.x) && coord_ok(p.y) && coord_ok(p.z)
}

pub open spec fn points_ok(ps: Seq<Point>) -> bool {
    &&& ps.len() <= MAX_POINTS
    &&& forall|i: int| 0 <= i < ps.len() ==> #[trigger] point_ok(ps[i])
}

pub open spec fn sq(d: int) -> int {
    d * d
}

/// Squared Euclidean distance.
pub open spec fn dist2(p: Point, q: Point) -> int {
    sq(p.x - q.x) + sq(p.y - q.y) + sq(p.z - q.z)
}

/// Number of unordered pairs of distinct indices below `n`.
pub open spec fn num_pairs(n: int) -> int {
    n * (n - 1) / 2
}

/// Number of pairs `(i, j)`, `i < j < n`, whose first index is below `k`.
pub open spec fn pairs_before(n: int, k: int) -> int
    decreases k,
{
    if k <= 0 {
        0
    } else {
        pairs_before(n, k - 1) + (n - k)
    }
}

/// The order in which edges are taken: by weight, then by enumeration order.
pub open spec fn key_le(s: (u128, usize, usize), t: (u128, usize, usize)) -> bool {
    s.0 < t.0 || (s.0 == t.0 && (s.1 < t.1 || (s.1 == t.1 && s.2 <= t.2)))
}

pub open spec fn edge_key(e: Edge) -> (u128, usize, usize) {
    (e.dist2, e.a, e.b)
}

pub open spec fn edge_lt(e: Edge, f: Edge) -> bool {
    key_le(edge_key(e), edge_key(f)) && edge_key(e) != edge_key(f)
}

/// The edge between `i` and `j` is among `es`.
pub open spec fn has_pair(es: Seq<Edge>, i: int, j: int) -> bool {
    exists|k: int| 0 <= k < es.len() && es[k].a == i && #[trigger] es[k].b == j
}

/// `es` is every edge of the complete graph over `ps`, once each, in ascending
/// order of weight, edges of equal weight in enumeration order.
pub open spec fn is_edge_order(ps: Seq<Point>, es: Seq<Edge>) -> bool {
    &&& forall|k: int|
        0 <= k < es.len() ==> #[trigger] es[k].a < es[k].b && es[k].b < ps.len() && es[k].dist2
            == dist2(ps[es[k].a as int], ps[es[k].b as int])
    &&& forall|i: int, j: int| 0 <= i < j < ps.len() ==> #[trigger] has_pair(es, i, j)
    &&& forall|k: int, l: int| 0 <= k < l < es.len() ==> edge_lt(#[trigger] es[k], #[trigger] es[l])
}

/// The endpoints of each edge, as merged by a partition.
pub open spec fn endpoints(es: Seq<Edge>) -> Seq<(int, int)> {
    es.map_values(|e: Edge| (e.a as int, e.b as int))
}

/// Relies on `slice::sort`: sorts in place, ascending in the lexicographic order
/// of tuples, keeping the same items.
#[verifier::external_body]
fn sort_keys(v: &mut Vec<(u128, usize, usize)>)
    ensures
        final(v)@.to_multiset() == old(v)@.to_multiset(),
        forall|i: int, j: int|
            0 <= i < j < final(v)@.len() ==> key_le(#[trigger] final(v)@[i], #[trigger] final(v)@[j]),
{
    v.sort();
}

/// Absolute difference of two coordinates.
fn coord_gap(s: i64, t: i64) -> (r: u128)
    requires
        coord_ok(s),
        coord_ok(t),
    ensures
        r == if s >= t {
            s - t
        } else {
            t - s
        },
        r <= 2 * COORD_LIMIT,
{
    if s >= t {
        (s as i128 - t as i128) as u128
    } else {
        (t as i128 - s as i128) as u128
    }
}

/// Squared Euclidean distance between two points.
pub fn squared_distance(p: &Point, q: &Point) -> (r: u128)
    requires
        point_ok(*p),
        point_ok(*q),
    ensures
        r == dist2(*p, *q),
{
    let dx = coord_gap(p.x, q.x);
    let dy = coord_gap(p.y, q.y);
    let dz = coord_gap(p.z, q.z);
    let bound: u128 = 2 * (COORD_LIMIT as u128);
    assert(dx * dx <= bound * bound) by (nonlinear_arith)
        requires
            dx <= bound,
    ;
    assert(dy * dy <= bound * bound) by (nonlinear_arith)
        requires
            dy <= bound,
    ;
    assert(dz * dz <= bound * bound) by (nonlinear_arith)
        requires
            dz <= bound,
    ;
    assert(sq(p.x - q.x) == dx * dx) by (nonlinear_arith)
        requires
            dx == p.x - q.x || dx == q.x - p.x,
    ;
    assert(sq(p.y - q.y) == dy * dy) by (nonlinear_arith)
        requires
            dy == p.y - q.y || dy == q.y - p.y,
    ;
    assert(sq(p.z - q.z) == dz * dz) by (nonlinear_arith)
        requires
            dz == p.z - q.z || dz == q.z - p.z,
    ;
    dx * dx + dy * dy + dz * dz
}

proof fn lemma_pairs_before(n: int, k: int)
    requires
        0 <= k <= n,
    ensures
        2 * pairs_before(n, k) == k * (2 * n - k - 1),
        0 <= pairs_before(n, k) <= pairs_before(n, n),
    decreases k,
{
    if k > 0 {
        lemma_pairs_before(n, k - 1);
        assert(k * (2 * n - k - 1) == (k - 1) * (2 * n - (k - 1) - 1) + 2 * (n - k))
            by (nonlinear_arith);
    }
    lemma_pairs_total(n, k);
}

proof fn lemma_pairs_total(n: int, k: int)
    requires
        0 <= k <= n,
    ensures
        pairs_before(n, k) <= pairs_before(n, n),
        0 <= pairs_before(n, k),
    decreases n - k,
{
    if k < n {
        lemma_pairs_total(n, k + 1);
    }
    lemma_pairs_nonneg(n, k);
}

proof fn lemma_pairs_nonneg(n: int, k: int)
    requires
        0 <= k <= n,
    ensures
        0 <= pairs_before(n, k),
    decreases k,
{
    if k > 0 {
        lemma_pairs_nonneg(n, k - 1);
    }
}

proof fn lemma_num_pairs(n: int)
    requires
        0 <= n <= MAX_POINTS,
    ensures
        pairs_before(n, n) == num_pairs(n),
        num_pairs(n) <= usize::MAX,
{
    lemma_pairs_before(n, n);
    let p = n * (n - 1);
    assert(0 <= p <= 0x1_0000 * 0x1_0000) by (nonlinear_arith)
        requires
            0 <= n <= MAX_POINTS,
            p == n * (n - 1),
    ;
    assert(p / 2 <= usize::MAX) by (nonlinear_arith)
        requires
            0 <= p <= 0x1_0000 * 0x1_0000,
    ;
}

/// The tuples of `v` are pairs `i < j < ps.len()` with their squared distances.
pub open spec fn keys_valid(ps: Seq<Point>, v: Seq<(u128, usize, usize)>) -> bool {
    forall|k: int|
        0 <= k < v.len() ==> #[trigger] v[k].1 < v[k].2 && v[k].2 < ps.len() && v[k].0 == dist2(
            ps[v[k].1 as int],
            ps[v[k].2 as int],
        )
}

pub open spec fn has_key_pair(v: Seq<(u128, usize, usize)>, i: int, j: int) -> bool {
    exists|k: int| 0 <= k < v.len() && v[k].1 == i && #[trigger] v[k].2 == j
}

/// Every pair of points with its squared distance, in enumeration order.
fn enumerate_pairs(points: &Vec<Point>) -> (v: Vec<(u128, usize, usize)>)
    requires
        points_ok(points@),
    ensures
        v@.len() == num_pairs(points@.len() as int),
        keys_valid(points@, v@),
        forall|i: int, j: int| 0 <= i < j < points@.len() ==> #[trigger] has_key_pair(v@, i, j),
        v@.no_duplicates(),
{
    let n = points.len();
    proof {
        lemma_num_pairs(n as int);
    }
    let mut v: Vec<(u128, usize, usize)> = Vec::new();
    let mut i: usize = 0;
    while i < n
        invariant
            n == points@.len(),
            points_ok(points@),
            i <= n,
            v@.len() == pairs_before(n as int, i as int),
            keys_valid(points@, v@),
            forall|k: int| 0 <= k < v@.len() ==> (#[trigger] v@[k]).1 < i,
            forall|k: int, l: int|
                0 <= k < l < v@.len() ==> (#[trigger] v@[k]).1 < (#[trigger] v@[l]).1 || (v@[k].1
                    == v@[l].1 && v@[k].2 < v@[l].2),
            forall|a: int, b: int| 0 <= a < i && a < b < n ==> #[trigger] has_key_pair(v@, a, b),
        decreases n - i,
    {
        proof {
            lemma_pairs_before(n as int, i as int + 1);
            lemma_pairs_before(n as int, n as int);
            lemma_pairs_total(n as int, i as int + 1);
            lemma_num_pairs(n as int);
        }
        let ghost start = v@.len();
        let mut j: usize = i + 1;
        while j < n
            invariant
                n == points@.len(),
                points_ok(points@),
                i < n,
                i + 1 <= j <= n,
                start == pairs_before(n as int, i as int),
                v@.len() == start + (j - i - 1),
                v@.len() <= usize::MAX,
                pairs_before(n as int, i as int + 1) <= num_pairs(n as int) <= usize::MAX,
                keys_valid(points@, v@),
                forall|k: int|
                    0 <= k < v@.len() ==> (#[trigger] v@[k]).1 < i || (v@[k].1 == i && v@[k].2
                        < j),
                forall|k: int, l: int|
                    0 <= k < l < v@.len() ==> (#[trigger] v@[k]).1 < (#[trigger] v@[l]).1 || (
                    v@[k].1 == v@[l].1 && v@[k].2 < v@[l].2),
                forall|a: int, b: int| 0 <= a < i && a < b < n ==> #[trigger] has_key_pair(v@, a, b),
                forall|b: int| i < b < j ==> #[trigger] has_key_pair(v@, i as int, b),
            decreases n - j,
        {
            proof {
                assert(points_ok(points@));
                assert(point_ok(points@[i as int]));
                assert(point_ok(points@[j as int]));
            }
            let d = squared_distance(&points[i], &points[j]);
            let ghost prev = v@;
            v.push((d, i, j));
            proof {
                assert forall|a: int, b: int|
                    0 <= a < i && a < b < n implies #[trigger] has_key_pair(v@, a, b) by {
                    assert(has_key_pair(prev, a, b));
                    let k = choose|k: int| 0 <= k < prev.len() && prev[k].1 == a && prev[k].2 == b;
                    assert(v@[k] == prev[k]);
                }
                assert forall|b: int| i < b < j + 1 implies #[trigger] has_key_pair(
                    v@,
                    i as int,
                    b,
                ) by {
                    if b == j {
                        assert(v@[v@.len() - 1] == (d, i, j));
                        assert(v@[v@.len() - 1].2 == j);
                    } else {
                        assert(has_key_pair(prev, i as int, b));
                        let k = choose|k: int|
                            0 <= k < prev.len() && prev[k].1 == i && prev[k].2 == b;
                        assert(v@[k] == prev[k]);
                    }
                }
            }
            j = j + 1;
        }
        i = i + 1;
    }
    proof {
        lemma_num_pairs(n as int);
    }
    v
}

/// Every edge of the complete graph over `points`, in ascending order of squared
/// distance, edges of equal weight in enumeration order (`(i, j)`, `i < j`, by `i`
/// then `j`); an error where fewer than two points leave no edge.
pub fn distance_graph(points: &Vec<Point>) -> (r: Result<Vec<Edge>, ClusterError>)
    requires
        points_ok(points@),
    ensures
        r is Err <==> points@.len() < 2,
        r is Err ==> r == Err::<Vec<Edge>, ClusterError>(ClusterError::InvalidInput),
        r matches Ok(es) ==> is_edge_order(points@, es@) && es@.len() == num_pairs(
            points@.len() as int,
        ),
{
    if points.len() < 2 {
        return Err(ClusterError::InvalidInput);
    }
    let mut v = enumerate_pairs(points);
    let ghost before = v@;
    proof {
        before.lemma_multiset_has_no_duplicates();
        before.to_multiset_ensures();
    }
    sort_keys(&mut v);
    proof {
        v@.to_multiset_ensures();
        v@.lemma_multiset_has_no_duplicates_conv();
        assert forall|k: int| 0 <= k < v@.len() implies before.contains(#[trigger] v@[k]) by {
            assert(v@.to_multiset().count(v@[k]) > 0);
        }
        assert forall|k: int| 0 <= k < before.len() implies v@.contains(#[trigger] before[k]) by {
            assert(before.contains(before[k]));
            assert(before.to_multiset().count(before[k]) > 0);
            assert(v@.to_multiset().count(before[k]) > 0);
        }
    }
    let mut es: Vec<Edge> = Vec::new();
    let mut k: usize = 0;
    while k < v.len()
        invariant
            k <= v@.len(),
            es@.len() == k,
            forall|m: int|
                0 <= m < k ==> #[trigger] es@[m] == (Edge { a: v@[m].1, b: v@[m].2, dist2: v@[m].0 }),
        decreases v@.len() - k,
    {
        let (d, a, b) = v[k];
        es.push(Edge { a, b, dist2: d });
        k = k + 1;
    }
    proof {
        assert forall|m: int| 0 <= m < es@.len() implies #[trigger] es@[m].a < es@[m].b && es@[m].b
            < points@.len() && es@[m].dist2 == dist2(
            points@[es@[m].a as int],
            points@[es@[m].b as int],
        ) by {
            assert(before.contains(v@[m]));
            let x = choose|x: int| 0 <= x < before.len() && before[x] == v@[m];
            assert(keys_valid(points@, before));
            assert(before[x].1 < before[x].2);
        }
        assert forall|i: int, j: int| 0 <= i < j < points@.len() implies #[trigger] has_pair(
            es@,
            i,
            j,
        ) by {
            assert(has_key_pair(before, i, j));
            let x = choose|x: int| 0 <= x < before.len() && before[x].1 == i && before[x].2 == j;
            assert(v@.contains(before[x]));
            let m = choose|m: int| 0 <= m < v@.len() && v@[m] == before[x];
            assert(es@[m].a == i && es@[m].b == j);
        }
        assert forall|k1: int, l: int| 0 <= k1 < l < es@.len() implies edge_lt(
            #[trigger] es@[k1],
            #[trigger] es@[l],
        ) by {
            assert(key_le(v@[k1], v@[l]));
            assert(v@[k1] != v@[l]);
            assert(edge_key(es@[k1]) == v@[k1]);
            assert(edge_key(es@[l]) == v@[l]);
        }
    }
    Ok(es)
}

} // verus!
