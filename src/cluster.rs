//! The two queries over the distance graph: the product of the sizes of the
//! three largest clusters that the shortest edges form, and the edge that first
//! connects all points.

use vstd::prelude::*;
use crate::error::ClusterError;
use crate::graph::{
    distance_graph, endpoints, is_edge_order, num_pairs, points_ok, Edge, Point, MAX_POINTS,
};
use crate::merger::{
    all_connected, count_rel, joined_by, lemma_joined_by_covers, lemma_joined_by_equivalence,
    ConnectivityMerger, Rel,
};

verus! {

/// The endpoints of every edge of `es` are below `n`.
pub open spec fn edges_within(es: Seq<Edge>, n: int) -> bool {
    forall|k: int| 0 <= k < es.len() ==> #[trigger] es[k].a < n && es[k].b < n
}

/// Indices `i`, `j`, `k` of `s` are distinct and hold positive values.
pub open spec fn distinct_positive(s: Seq<usize>, i: int, j: int, k: int) -> bool {
    &&& 0 <= i < s.len() && 0 <= j < s.len() && 0 <= k < s.len()
    &&& i != j && i != k && j != k
    &&& s[i] > 0 && s[j] > 0 && s[k] > 0
}

pub open spec fn three_positive(s: Seq<usize>) -> bool {
    exists|i: int, j: int, k: int| #[trigger] distinct_positive(s, i, j, k)
}

/// `s[i]`, `s[j]`, `s[k]` are three largest positive values of `s`.
pub open spec fn largest_three(s: Seq<usize>, i: int, j: int, k: int) -> bool {
    &&& distinct_positive(s, i, j, k)
    &&& forall|m: int|
        0 <= m < s.len() && m != i && m != j && m != k ==> #[trigger] s[m] <= s[i] && s[m]
            <= s[j] && s[m] <= s[k]
}

/// Number of indices below `n` that `r` connects to `x`.
pub open spec fn class_size(r: Rel, x: int, n: int) -> nat {
    count_rel(r, x, n)
}

/// `x`, `y`, `z` lie in three distinct components of `r` over `0..n`.
pub open spec fn three_apart(r: Rel, n: int, x: int, y: int, z: int) -> bool {
    &&& 0 <= x < n && 0 <= y < n && 0 <= z < n
    &&& !r(x, y) && !r(x, z) && !r(y, z)
}

pub open spec fn has_three_components(r: Rel, n: int) -> bool {
    exists|x: int, y: int, z: int| #[trigger] three_apart(r, n, x, y, z)
}

/// `v` is the product of the sizes of three largest components of `r` over `0..n`.
pub open spec fn is_top3_product(r: Rel, n: int, v: int) -> bool {
    exists|x: int, y: int, z: int|
        #[trigger] three_apart(r, n, x, y, z) && v == class_size(r, x, n) * class_size(r, y, n)
            * class_size(r, z, n) && forall|w: int|
            0 <= w < n && !r(w, x) && !r(w, y) && !r(w, z) ==> #[trigger] class_size(r, w, n)
                <= class_size(r, x, n) && class_size(r, w, n) <= class_size(r, y, n) && class_size(
                r,
                w,
                n,
            ) <= class_size(r, z, n)
}

/// The partition after merging the `connections` shortest edges.
pub open spec fn clustered(es: Seq<Edge>, connections: int) -> Rel {
    joined_by(endpoints(es.take(connections)))
}

/// `e` is the edge of the ascending edge order after which all points are first connected.
pub open spec fn is_bottleneck(ps: Seq<Point>, e: Edge) -> bool {
    exists|es: Seq<Edge>, k: int|
        is_edge_order(ps, es) && 0 <= k < es.len() && #[trigger] es[k] == e && all_connected(
            joined_by(endpoints(es.take(k + 1))),
            ps.len() as int,
        ) && !all_connected(joined_by(endpoints(es.take(k))), ps.len() as int)
}

/// Merges the first `take` edges of `es`, in order, into a fresh partition of `0..n`.
pub fn merge_connections(n: usize, es: &Vec<Edge>, take: usize) -> (m: ConnectivityMerger)
    requires
        take <= es@.len(),
        edges_within(es@, n as int),
    ensures
        m.wf(),
        m.n() == n,
        m.rel() == joined_by(endpoints(es@.take(take as int))),
{
    let mut m = ConnectivityMerger::new(n);
    let mut k: usize = 0;
    assert(endpoints(es@.take(0)) =~= Seq::<(int, int)>::empty());
    while k < take
        invariant
            k <= take <= es@.len(),
            edges_within(es@, n as int),
            m.wf(),
            m.n() == n,
            m.rel() == joined_by(endpoints(es@.take(k as int))),
        decreases take - k,
    {
        let e = es[k];
        m.merge(e.a, e.b);
        proof {
            lemma_endpoints_take_step(es@, k as int);
        }
        k = k + 1;
    }
    m
}

proof fn lemma_endpoints_take_step(es: Seq<Edge>, k: int)
    requires
        0 <= k < es.len(),
    ensures
        joined_by(endpoints(es.take(k + 1))) == crate::merger::step(
            joined_by(endpoints(es.take(k))),
            es[k].a as int,
            es[k].b as int,
        ),
{
    let s = endpoints(es.take(k + 1));
    assert(s.drop_last() =~= endpoints(es.take(k)));
    assert(s.last() == (es[k].a as int, es[k].b as int));
}

/// Is `x` among the items of `v`?
fn is_listed(v: &Vec<usize>, x: usize) -> (r: bool)
    ensures
        r == v@.contains(x),
{
    let mut i: usize = 0;
    while i < v.len()
        invariant
            i <= v@.len(),
            forall|m: int| 0 <= m < i ==> v@[m] != x,
        decreases v@.len() - i,
    {
        if v[i] == x {
            return true;
        }
        i = i + 1;
    }
    false
}

/// Index of a largest positive value of `s` outside `skip`; `None` where every
/// value outside `skip` is zero.
fn largest_outside(s: &Vec<usize>, skip: &Vec<usize>) -> (r: Option<usize>)
    ensures
        r matches Some(i) ==> i < s@.len() && s@[i as int] > 0 && !skip@.contains(i) && forall|
            m: int,
        |
            0 <= m < s@.len() && !skip@.contains(m as usize) ==> #[trigger] s@[m] <= s@[i as int],
        r is None ==> forall|m: int|
            0 <= m < s@.len() && !skip@.contains(m as usize) ==> #[trigger] s@[m] == 0,
{
    let mut best: Option<usize> = None;
    let mut i: usize = 0;
    while i < s.len()
        invariant
            i <= s@.len(),
            best matches Some(b) ==> b < i && s@[b as int] > 0 && !skip@.contains(b) && forall|
                m: int,
            |
                0 <= m < i && !skip@.contains(m as usize) ==> #[trigger] s@[m] <= s@[b as int],
            best is None ==> forall|m: int|
                0 <= m < i && !skip@.contains(m as usize) ==> #[trigger] s@[m] == 0,
        decreases s@.len() - i,
    {
        if s[i] > 0 && !is_listed(skip, i) {
            match best {
                None => {
                    best = Some(i);
                },
                Some(b) => {
                    if s[i] > s[b] {
                        best = Some(i);
                    }
                },
            }
        }
        i = i + 1;
    }
    best
}

/// Product of the three largest positive values of `sizes`; `None` where fewer
/// than three values are positive.
pub fn product_of_largest_three(sizes: &Vec<usize>) -> (r: Option<u64>)
    requires
        forall|k: int| 0 <= k < sizes@.len() ==> #[trigger] sizes@[k] <= MAX_POINTS,
    ensures
        r is None <==> !three_positive(sizes@),
        r matches Some(v) ==> exists|i: int, j: int, k: int|
            #[trigger] largest_three(sizes@, i, j, k) && v == sizes@[i] * sizes@[j] * sizes@[k],
{
    let s = sizes;
    let len = s.len();
    let mut skip: Vec<usize> = Vec::new();
    let i = match largest_outside(s, &skip) {
        Some(i) => i,
        None => {
            proof {
                assert forall|a: int, b: int, c: int| !#[trigger] distinct_positive(s@, a, b, c) by {
                    if 0 <= a < s@.len() {
                        assert(!skip@.contains(a as usize));
                    }
                }
            }
            return None;
        },
    };
    skip.push(i);
    let j = match largest_outside(s, &skip) {
        Some(j) => j,
        None => {
            proof {
                assert forall|a: int, b: int, c: int| !#[trigger] distinct_positive(s@, a, b, c) by {
                    if distinct_positive(s@, a, b, c) {
                        let o = if a != i {
                            a
                        } else {
                            b
                        };
                        assert(skip@.len() == 1 && skip@[0] == i);
                        assert(!skip@.contains(o as usize));
                    }
                }
            }
            return None;
        },
    };
    assert(skip@.len() == 1 && skip@[0] == i);
    assert(skip@.contains(i));
    assert(j != i);
    skip.push(j);
    let k = match largest_outside(s, &skip) {
        Some(k) => k,
        None => {
            proof {
                assert forall|a: int, b: int, c: int| !#[trigger] distinct_positive(s@, a, b, c) by {
                    if distinct_positive(s@, a, b, c) {
                        let o = if a != i && a != j {
                            a
                        } else if b != i && b != j {
                            b
                        } else {
                            c
                        };
                        assert(skip@.len() == 2 && skip@[0] == i && skip@[1] == j);
                        assert(!skip@.contains(o as usize));
                    }
                }
            }
            return None;
        },
    };
    assert(skip@.len() == 2 && skip@[0] == i && skip@[1] == j);
    assert(skip@.contains(i) && skip@.contains(j));
    assert(k != i && k != j);
    proof {
        assert(distinct_positive(s@, i as int, j as int, k as int));
        assert forall|m: int|
            0 <= m < s@.len() && m != i && m != j && m != k implies #[trigger] s@[m] <= s@[i as int]
            && s@[m] <= s@[j as int] && s@[m] <= s@[k as int] by {
            assert(!skip@.contains(m as usize));
            assert(skip@.subrange(0, 1).len() == 1 && skip@.subrange(0, 1)[0] == i);
            assert(!skip@.subrange(0, 1).contains(m as usize));
            assert(seq![i] =~= skip@.subrange(0, 1));
        }
        assert(largest_three(s@, i as int, j as int, k as int));
    }
    let a = s[i] as u64;
    let b = s[j] as u64;
    let c = s[k] as u64;
    assert(a * b <= 0x1_0000 * 0x1_0000) by (nonlinear_arith)
        requires
            a <= 0x1_0000,
            b <= 0x1_0000,
    ;
    assert(a * b * c <= 0x1_0000 * 0x1_0000 * 0x1_0000) by (nonlinear_arith)
        requires
            a * b <= 0x1_0000 * 0x1_0000,
            c <= 0x1_0000,
    ;
    Some(a * b * c)
}

/// Merges the `connections` shortest edges of the graph over `points` and
/// returns the product of the sizes of the three largest components.
pub fn first_challenge(points: &Vec<Point>, connections: usize) -> (r: Result<u64, ClusterError>)
    requires
        points_ok(points@),
    ensures
        r == Err::<u64, ClusterError>(ClusterError::InvalidInput) <==> points@.len() < 2
            || connections == 0 || connections > num_pairs(points@.len() as int),
        r != Err::<u64, ClusterError>(ClusterError::InsufficientPoints),
        r == Err::<u64, ClusterError>(ClusterError::InsufficientComponents) ==> exists|
            es: Seq<Edge>,
        |
            #[trigger] is_edge_order(points@, es) && !has_three_components(
                clustered(es, connections as int),
                points@.len() as int,
            ),
        r matches Ok(v) ==> exists|es: Seq<Edge>|
            #[trigger] is_edge_order(points@, es) && is_top3_product(
                clustered(es, connections as int),
                points@.len() as int,
                v as int,
            ),
{
    let es = match distance_graph(points) {
        Ok(es) => es,
        Err(e) => {
            return Err(e);
        },
    };
    if connections == 0 || connections > es.len() {
        return Err(ClusterError::InvalidInput);
    }
    let n = points.len();
    assert(edges_within(es@, n as int));
    let m = merge_connections(n, &es, connections);
    let sizes = m.sizes_by_rep();
    let ghost rel = m.rel();
    proof {
        m.lemma_reps();
        crate::merger::lemma_rel_equivalence(m);
    }
    match product_of_largest_three(&sizes) {
        None => {
            proof {
                assert forall|x: int, y: int, z: int| !#[trigger] three_apart(rel, n as int, x, y, z) by {
                    if three_apart(rel, n as int, x, y, z) {
                        let (rx, ry, rz) = (m.rep(x), m.rep(y), m.rep(z));
                        assert(sizes@[rx] > 0 && sizes@[ry] > 0 && sizes@[rz] > 0);
                        assert(distinct_positive(sizes@, rx, ry, rz));
                    }
                }
            }
            Err(ClusterError::InsufficientComponents)
        },
        Some(v) => {
            proof {
                let (x, y, z) = choose|x: int, y: int, z: int|
                    #[trigger] largest_three(sizes@, x, y, z) && v == sizes@[x] * sizes@[y]
                        * sizes@[z];
                assert(m.rep(x) == x && m.rep(y) == y && m.rep(z) == z);
                assert(three_apart(rel, n as int, x, y, z));
                assert(class_size(rel, x, n as int) == sizes@[x]);
                assert(class_size(rel, y, n as int) == sizes@[y]);
                assert(class_size(rel, z, n as int) == sizes@[z]);
                assert forall|w: int|
                    0 <= w < n && !rel(w, x) && !rel(w, y) && !rel(w, z) implies #[trigger] class_size(
                    rel,
                    w,
                    n as int,
                ) <= class_size(rel, x, n as int) && class_size(rel, w, n as int) <= class_size(
                    rel,
                    y,
                    n as int,
                ) && class_size(rel, w, n as int) <= class_size(rel, z, n as int) by {
                    let rw = m.rep(w);
                    assert(sizes@[rw] > 0);
                    assert(rw != x && rw != y && rw != z);
                    assert(sizes@[rw] <= sizes@[x]);
                }
                assert(is_top3_product(rel, n as int, v as int));
            }
            Ok(v)
        },
    }
}

/// The edge, in ascending order of weight, after which all points are first
/// connected: the bottleneck edge of the minimum spanning tree.
pub fn bottleneck_edge(points: &Vec<Point>) -> (r: Result<Edge, ClusterError>)
    requires
        points_ok(points@),
    ensures
        r is Err <==> points@.len() < 2,
        r is Err ==> r == Err::<Edge, ClusterError>(ClusterError::InsufficientPoints),
        r matches Ok(e) ==> e.a < e.b < points@.len() && is_bottleneck(points@, e),
{
    let es = match distance_graph(points) {
        Ok(es) => es,
        Err(_) => {
            return Err(ClusterError::InsufficientPoints);
        },
    };
    let n = points.len();
    assert(edges_within(es@, n as int));
    let mut m = ConnectivityMerger::new(n);
    assert(endpoints(es@.take(0)) =~= Seq::<(int, int)>::empty());
    let mut k: usize = 0;
    while k < es.len()
        invariant
            n == points@.len(),
            n >= 2,
            k <= es@.len(),
            is_edge_order(points@, es@),
            edges_within(es@, n as int),
            m.wf(),
            m.n() == n,
            m.num_components() >= 2,
            m.rel() == joined_by(endpoints(es@.take(k as int))),
        decreases es@.len() - k,
    {
        let e = es[k];
        let ghost prev = m;
        m.merge(e.a, e.b);
        proof {
            lemma_endpoints_take_step(es@, k as int);
        }
        if m.count() == 1 {
            proof {
                m.lemma_single_component();
                prev.lemma_single_component();
                assert(is_bottleneck(points@, e));
            }
            return Ok(e);
        }
        k = k + 1;
    }
    proof {
        let eps = endpoints(es@);
        assert(es@.take(es@.len() as int) =~= es@);
        lemma_joined_by_covers(eps);
        lemma_joined_by_equivalence(eps);
        let r = joined_by(eps);
        assert forall|i: int, j: int| 0 <= i < n && 0 <= j < n implies #[trigger] r(i, j) by {
            if i < j {
                assert(crate::graph::has_pair(es@, i, j));
                let q = choose|q: int| 0 <= q < es@.len() && es@[q].a == i && es@[q].b == j;
                assert(eps[q] == (i, j));
                assert(r(eps[q].0, eps[q].1));
            } else if j < i {
                assert(crate::graph::has_pair(es@, j, i));
                let q = choose|q: int| 0 <= q < es@.len() && es@[q].a == j && es@[q].b == i;
                assert(eps[q] == (j, i));
                assert(r(eps[q].0, eps[q].1));
            } else {
                assert(r(i, i));
            }
        }
        m.lemma_single_component();
    }
    Err(ClusterError::InsufficientPoints)
}

/// The product of the `x` coordinates of the two endpoints of the bottleneck edge.
pub fn second_challenge(points: &Vec<Point>) -> (r: Result<i128, ClusterError>)
    requires
        points_ok(points@),
    ensures
        r is Err <==> points@.len() < 2,
        r is Err ==> r == Err::<i128, ClusterError>(ClusterError::InsufficientPoints),
        r matches Ok(v) ==> exists|e: Edge|
            #[trigger] is_bottleneck(points@, e) && e.a < e.b < points@.len() && v == points@[e.a as int].x
                * points@[e.b as int].x,
{
    let e = match bottleneck_edge(points) {
        Ok(e) => e,
        Err(err) => {
            return Err(err);
        },
    };
    let p = points[e.a].x as i128;
    let q = points[e.b].x as i128;
    assert(crate::graph::point_ok(points@[e.a as int]));
    assert(crate::graph::point_ok(points@[e.b as int]));
    assert(-0x4000_0000_0000_0000 * 0x4000_0000_0000_0000 <= p * q <= 0x4000_0000_0000_0000
        * 0x4000_0000_0000_0000) by (nonlinear_arith)
        requires
            -0x4000_0000_0000_0000 <= p <= 0x4000_0000_0000_0000,
            -0x4000_0000_0000_0000 <= q <= 0x4000_0000_0000_0000,
    ;
    Ok(p * q)
}

} // verus!
