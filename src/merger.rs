//! A partition of the indices `0..n` into connected components, merged edge by edge.

use vstd::prelude::*;

verus! {

/// A relation between point indices, as it stands after some merges.
pub type Rel = spec_fn(int, int) -> bool;

/// The relation before any merge: every index is connected to itself alone.
pub open spec fn identity_rel() -> Rel {
    |i: int, j: int| i == j
}

/// The relation after an edge `(a, b)` has been merged into `r`.
pub open spec fn step(r: Rel, a: int, b: int) -> Rel {
    |i: int, j: int| r(i, j) || (r(i, a) && r(b, j)) || (r(i, b) && r(a, j))
}

/// The relation after merging the edges of `es`, first to last, into a fresh partition.
pub open spec fn joined_by(es: Seq<(int, int)>) -> Rel
    decreases es.len(),
{
    if es.len() == 0 {
        identity_rel()
    } else {
        step(joined_by(es.drop_last()), es.last().0, es.last().1)
    }
}

pub open spec fn is_equivalence(r: Rel) -> bool {
    &&& forall|i: int| #[trigger] r(i, i)
    &&& forall|i: int, j: int| #[trigger] r(i, j) ==> r(j, i)
    &&& forall|i: int, j: int, k: int| #[trigger] r(i, j) && #[trigger] r(j, k) ==> r(i, k)
}

/// Every edge of `es` connects its two endpoints under `r`.
pub open spec fn covers(r: Rel, es: Seq<(int, int)>) -> bool {
    forall|k: int| 0 <= k < es.len() ==> #[trigger] r(es[k].0, es[k].1)
}

/// `i` and `j` are connected under every equivalence that connects the endpoints
/// of each edge of `es`: they lie in one component of the graph whose edges are `es`.
pub open spec fn in_closure(es: Seq<(int, int)>, i: int, j: int) -> bool {
    forall|q: Rel| is_equivalence(q) && covers(q, es) ==> #[trigger] q(i, j)
}

/// All indices below `n` are connected under `r`.
pub open spec fn all_connected(r: Rel, n: int) -> bool {
    forall|i: int, j: int| 0 <= i < n && 0 <= j < n ==> #[trigger] r(i, j)
}

/// Number of indices `j < k` that are their own label.
pub open spec fn roots_below(label: Seq<usize>, k: int) -> nat
    decreases k,
{
    if k <= 0 {
        0
    } else {
        roots_below(label, k - 1) + if label[k - 1] as int == k - 1 {
            1nat
        } else {
            0nat
        }
    }
}

/// Number of indices `j < k` whose label is `r`.
pub open spec fn count_label(label: Seq<usize>, r: int, k: int) -> nat
    decreases k,
{
    if k <= 0 {
        0
    } else {
        count_label(label, r, k - 1) + if label[k - 1] as int == r {
            1nat
        } else {
            0nat
        }
    }
}

/// Number of indices `j < k` with `r(i, j)`.
pub open spec fn count_rel(r: Rel, i: int, k: int) -> nat
    decreases k,
{
    if k <= 0 {
        0
    } else {
        count_rel(r, i, k - 1) + if r(i, k - 1) {
            1nat
        } else {
            0nat
        }
    }
}

/// `j` is a member of one of the lists of `cs`.
pub open spec fn listed(cs: Seq<Vec<usize>>, j: usize) -> bool {
    exists|c: int| 0 <= c < cs.len() && #[trigger] cs[c]@.contains(j)
}

/// Union-find over a flat owner array: `label[i]` names the component of `i`
/// by one of its members, its representative, which is its own label.
pub struct ConnectivityMerger {
    label: Vec<usize>,
    count: usize,
}

impl ConnectivityMerger {
    /// Number of indices partitioned.
    pub closed spec fn n(&self) -> nat {
        self.label@.len()
    }

    /// The representative of the component of `i`.
    pub closed spec fn rep(&self, i: int) -> int {
        self.label@[i] as int
    }

    /// Number of indices whose representative is `r`.
    pub closed spec fn size_of(&self, r: int) -> nat {
        count_label(self.label@, r, self.n() as int)
    }

    /// Number of components.
    pub closed spec fn num_components(&self) -> nat {
        self.count as nat
    }

    /// `i` and `j` lie in one component; outside `0..n` an index is connected to itself alone.
    pub open spec fn connected(&self, i: int, j: int) -> bool {
        i == j || (0 <= i < self.n() && 0 <= j < self.n() && self.rep(i) == self.rep(j))
    }

    pub open spec fn rel(&self) -> Rel {
        |i: int, j: int| self.connected(i, j)
    }

    pub closed spec fn wf(&self) -> bool {
        &&& forall|i: int|
            0 <= i < self.label@.len() ==> #[trigger] self.label@[i] < self.label@.len()
                && self.label@[self.label@[i] as int] == self.label@[i]
        &&& self.count == roots_below(self.label@, self.label@.len() as int)
    }

    /// A partition of `0..n` into singletons.
    pub fn new(n: usize) -> (m: Self)
        ensures
            m.wf(),
            m.n() == n,
            m.rel() == identity_rel(),
            forall|i: int, j: int| #[trigger] m.connected(i, j) <==> i == j,
            m.num_components() == n,
    {
        let mut label: Vec<usize> = Vec::new();
        let mut i: usize = 0;
        while i < n
            invariant
                i <= n,
                label@.len() == i,
                forall|j: int| 0 <= j < i ==> label@[j] == j,
                roots_below(label@, i as int) == i,
            decreases n - i,
        {
            let ghost prev = label@;
            label.push(i);
            proof {
                lemma_roots_prefix(label@, prev, i as int);
            }
            i = i + 1;
        }
        let m = ConnectivityMerger { label, count: n };
        assert(m.rel() =~= identity_rel());
        m
    }

    /// Number of components.
    pub fn count(&self) -> (r: usize)
        requires
            self.wf(),
        ensures
            r == self.num_components(),
    {
        self.count
    }

    /// Number of indices partitioned.
    pub fn len(&self) -> (r: usize)
        ensures
            r == self.n(),
    {
        self.label.len()
    }

    /// Identifier of the component that holds `i`: two indices share it exactly when connected.
    pub fn find(&self, i: usize) -> (r: usize)
        requires
            self.wf(),
            i < self.n(),
        ensures
            r < self.n(),
            r == self.rep(i as int),
            forall|j: int| 0 <= j < self.n() ==> (self.connected(i as int, j) <==> self.rep(j) == r),
    {
        self.label[i]
    }

    /// Unites the components of `a` and `b`; returns whether they were distinct.
    pub fn merge(&mut self, a: usize, b: usize) -> (merged: bool)
        requires
            old(self).wf(),
            a < old(self).n(),
            b < old(self).n(),
        ensures
            final(self).wf(),
            final(self).n() == old(self).n(),
            merged == !old(self).connected(a as int, b as int),
            final(self).rel() == step(old(self).rel(), a as int, b as int),
            forall|i: int, j: int| #[trigger]
                final(self).connected(i, j) <==> step(old(self).rel(), a as int, b as int)(i, j),
            final(self).num_components() == if merged {
                old(self).num_components() - 1
            } else {
                old(self).num_components() as int
            },
    {
        let ghost old_label = self.label@;
        let n = self.label.len();
        let la = self.label[a];
        let lb = self.label[b];
        if la == lb {
            proof {
                lemma_rel_equivalence(*self);
            }
            assert(self.rel() =~= step(self.rel(), a as int, b as int));
            return false;
        }
        let mut k: usize = 0;
        while k < n
            invariant
                n == old_label.len(),
                self.label@.len() == n,
                la < n,
                lb < n,
                la != lb,
                old_label[la as int] == la,
                old_label[lb as int] == lb,
                self.count == old(self).count,
                0 <= k <= n,
                forall|j: int|
                    0 <= j < k ==> #[trigger] self.label@[j] == (if old_label[j] == lb {
                        la
                    } else {
                        old_label[j]
                    }),
                forall|j: int| k <= j < n ==> #[trigger] self.label@[j] == old_label[j],
            decreases n - k,
        {
            if self.label[k] == lb {
                self.label.set(k, la);
            }
            k = k + 1;
        }
        proof {
            lemma_roots_relabel(old_label, self.label@, la as int, lb as int, n as int);
            assert(roots_below(old_label, n as int) >= 1) by {
                lemma_root_counted(old_label, lb as int, n as int);
            }
        }
        self.count = self.count - 1;
        assert(self.rel() =~= step(old(self).rel(), a as int, b as int));
        true
    }

    /// The components, each as its members in increasing order: every index
    /// below `n` lies in exactly one of them, and each is a whole component.
    pub fn components(&self) -> (cs: Vec<Vec<usize>>)
        requires
            self.wf(),
        ensures
            cs@.len() == self.num_components(),
            forall|c: int| 0 <= c < cs@.len() ==> #[trigger] cs@[c]@.len() > 0,
            forall|c: int, x: int|
                0 <= c < cs@.len() && 0 <= x < cs@[c]@.len() ==> #[trigger] cs@[c]@[x] < self.n(),
            forall|c: int, x: int, y: int|
                0 <= c < cs@.len() && 0 <= x < y < cs@[c]@.len() ==> #[trigger] cs@[c]@[x]
                    < #[trigger] cs@[c]@[y],
            forall|j: usize| j < self.n() ==> #[trigger] listed(cs@, j),
            forall|c: int, d: int, j: usize|
                0 <= c < cs@.len() && 0 <= d < cs@.len() && c != d && #[trigger] cs@[c]@.contains(
                    j,
                ) ==> !#[trigger] cs@[d]@.contains(j),
            forall|c: int, i: usize, j: usize|
                0 <= c < cs@.len() && #[trigger] cs@[c]@.contains(i) && j < self.n() ==> (
                #[trigger] cs@[c]@.contains(j) <==> self.connected(i as int, j as int)),
    {
        let n = self.label.len();
        let mut cs: Vec<Vec<usize>> = Vec::new();
        let mut r: usize = 0;
        while r < n
            invariant
                self.wf(),
                n == self.n(),
                r <= n,
                cs@.len() == roots_below(self.label@, r as int),
                forall|c: int|
                    0 <= c < cs@.len() ==> {
                        &&& #[trigger] cs@[c]@.len() > 0
                        &&& forall|x: int|
                            0 <= x < cs@[c]@.len() ==> self.label@[#[trigger] cs@[c]@[x] as int]
                                == self.label@[cs@[c]@[0] as int]
                        &&& forall|x: int, y: int|
                            0 <= x < y < cs@[c]@.len() ==> #[trigger] cs@[c]@[x] < #[trigger] cs@[c]@[y]
                        &&& forall|j: usize|
                            j < n && self.label@[j as int] == self.label@[cs@[c]@[0] as int]
                                ==> #[trigger] cs@[c]@.contains(j)
                        &&& forall|x: int| 0 <= x < cs@[c]@.len() ==> #[trigger] cs@[c]@[x] < n
                    },
                forall|c: int, d: int|
                    0 <= c < d < cs@.len() ==> self.label@[cs@[c]@[0] as int]
                        < self.label@[cs@[d]@[0] as int],
                forall|c: int| 0 <= c < cs@.len() ==> self.label@[cs@[c]@[0] as int] < r,
                forall|j: usize| j < n && self.label@[j as int] < r ==> #[trigger] listed(cs@, j),
            decreases n - r,
        {
            let ghost prev = cs@;
            if self.label[r] == r {
                let members = self.members_of(r);
                cs.push(members);
                assert(self.label@[cs@.last()@[0] as int] == r);
            }
            assert forall|j: usize| j < n && self.label@[j as int] < r + 1 implies #[trigger] listed(
                cs@,
                j,
            ) by {
                if self.label@[j as int] == r {
                    let c = cs@.len() - 1;
                    assert(cs@[c]@.contains(j));
                } else {
                    assert(listed(prev, j));
                    let c = choose|c: int| 0 <= c < prev.len() && #[trigger] prev[c]@.contains(j);
                    assert(cs@[c] == prev[c]);
                }
            }
            r = r + 1;
        }
        proof {
            assert forall|c: int, d: int, j: usize|
                0 <= c < cs@.len() && 0 <= d < cs@.len() && c != d && #[trigger] cs@[c]@.contains(
                    j,
                ) implies !#[trigger] cs@[d]@.contains(j) by {
                if cs@[d]@.contains(j) {
                    let x = choose|x: int| 0 <= x < cs@[c]@.len() && cs@[c]@[x] == j;
                    let y = choose|y: int| 0 <= y < cs@[d]@.len() && cs@[d]@[y] == j;
                    assert(self.label@[cs@[c]@[x] as int] == self.label@[cs@[c]@[0] as int]);
                    assert(self.label@[cs@[d]@[y] as int] == self.label@[cs@[d]@[0] as int]);
                }
            }
            assert forall|j: usize| j < self.n() implies #[trigger] listed(cs@, j) by {
                assert(self.label@[j as int] < n);
            }
            assert forall|c: int, i: usize, j: usize|
                0 <= c < cs@.len() && #[trigger] cs@[c]@.contains(i) && j < self.n() implies (
                #[trigger] cs@[c]@.contains(j) <==> self.connected(i as int, j as int)) by {
                let x = choose|x: int| 0 <= x < cs@[c]@.len() && cs@[c]@[x] == i;
                assert(self.label@[cs@[c]@[x] as int] == self.label@[cs@[c]@[0] as int]);
                if cs@[c]@.contains(j) {
                    let y = choose|y: int| 0 <= y < cs@[c]@.len() && cs@[c]@[y] == j;
                    assert(self.label@[cs@[c]@[y] as int] == self.label@[cs@[c]@[0] as int]);
                }
            }
        }
        cs
    }

    /// The indices whose representative is `r`, in increasing order.
    fn members_of(&self, r: usize) -> (ms: Vec<usize>)
        requires
            self.wf(),
            r < self.n(),
            self.label@[r as int] == r,
        ensures
            ms@.len() > 0,
            ms@.len() == count_label(self.label@, r as int, self.n() as int),
            ms@.contains(r),
            forall|x: int| 0 <= x < ms@.len() ==> #[trigger] ms@[x] < self.n(),
            forall|x: int| 0 <= x < ms@.len() ==> self.label@[#[trigger] ms@[x] as int] == r,
            forall|x: int, y: int| 0 <= x < y < ms@.len() ==> #[trigger] ms@[x] < #[trigger] ms@[y],
            forall|j: usize| j < self.n() && self.label@[j as int] == r ==> ms@.contains(j),
    {
        let n = self.label.len();
        let mut ms: Vec<usize> = Vec::new();
        let mut j: usize = 0;
        while j < n
            invariant
                self.wf(),
                n == self.n(),
                r < n,
                self.label@[r as int] == r,
                j <= n,
                ms@.len() == count_label(self.label@, r as int, j as int),
                forall|x: int| 0 <= x < ms@.len() ==> #[trigger] ms@[x] < j,
                forall|x: int| 0 <= x < ms@.len() ==> self.label@[#[trigger] ms@[x] as int] == r,
                forall|x: int, y: int| 0 <= x < y < ms@.len() ==> #[trigger] ms@[x] < #[trigger] ms@[y],
                forall|i: usize| i < j && self.label@[i as int] == r ==> ms@.contains(i),
            decreases n - j,
        {
            let ghost prev = ms@;
            if self.label[j] == r {
                ms.push(j);
                assert(ms@[ms@.len() - 1] == j);
            }
            proof {
                assert forall|i: usize| i < j + 1 && self.label@[i as int] == r implies ms@.contains(
                    i,
                ) by {
                    if i == j {
                        assert(ms@[ms@.len() - 1] == j);
                    } else {
                        assert(prev.contains(i));
                        let x = choose|x: int| 0 <= x < prev.len() && prev[x] == i;
                        assert(ms@[x] == i);
                    }
                }
            }
            j = j + 1;
        }
        assert(ms@.contains(r));
        ms
    }

    /// Number of members of the component whose representative is `r`, for each
    /// index `r` (zero where `r` is no representative).
    pub fn sizes_by_rep(&self) -> (s: Vec<usize>)
        requires
            self.wf(),
        ensures
            s@.len() == self.n(),
            forall|r: int| 0 <= r < self.n() ==> #[trigger] s@[r] == self.size_of(r),
            forall|r: int| 0 <= r < self.n() ==> #[trigger] s@[r] <= self.n(),
    {
        let n = self.label.len();
        let mut s: Vec<usize> = Vec::new();
        let mut i: usize = 0;
        while i < n
            invariant
                i <= n,
                s@.len() == i,
                forall|r: int| 0 <= r < i ==> #[trigger] s@[r] == 0,
            decreases n - i,
        {
            s.push(0);
            i = i + 1;
        }
        let mut j: usize = 0;
        while j < n
            invariant
                self.wf(),
                n == self.n(),
                j <= n,
                s@.len() == n,
                forall|r: int| 0 <= r < n ==> #[trigger] s@[r] == count_label(self.label@, r, j as int),
            decreases n - j,
        {
            let r = self.label[j];
            proof {
                lemma_count_label_le(self.label@, r as int, j as int);
            }
            let v = s[r] + 1;
            s.set(r, v);
            j = j + 1;
        }
        assert forall|r: int| 0 <= r < self.n() implies #[trigger] s@[r] <= self.n() by {
            lemma_count_label_le(self.label@, r, n as int);
        }
        s
    }
}

impl ConnectivityMerger {
    /// Each index is connected to its representative, which is its own
    /// representative, and the size of its component is that of its representative.
    pub proof fn lemma_reps(&self)
        requires
            self.wf(),
        ensures
            forall|w: int|
                0 <= w < self.n() ==> {
                    &&& 0 <= #[trigger] self.rep(w) < self.n()
                    &&& self.rep(self.rep(w)) == self.rep(w)
                    &&& count_rel(self.rel(), w, self.n() as int) == self.size_of(self.rep(w))
                },
            forall|r: int| 0 <= r < self.n() ==> (self.size_of(r) > 0 <==> self.rep(r) == r),
    {
        assert forall|w: int| 0 <= w < self.n() implies count_rel(self.rel(), w, self.n() as int)
            == self.size_of(self.rep(w)) by {
            lemma_count_rel_label(*self, w, self.n() as int);
        }
        assert forall|r: int| 0 <= r < self.n() implies (self.size_of(r) > 0 <==> self.rep(r)
            == r) by {
            if self.rep(r) == r {
                lemma_count_label_pos(self.label@, r, r, self.n() as int);
            } else {
                lemma_count_label_zero(self.label@, r, self.n() as int);
            }
        }
    }

    /// A single component is left exactly when all indices are connected.
    pub proof fn lemma_single_component(&self)
        requires
            self.wf(),
            self.n() >= 1,
        ensures
            (self.num_components() == 1) == all_connected(self.rel(), self.n() as int),
    {
        let n = self.n() as int;
        let s = self.label@;
        if all_connected(self.rel(), n) {
            let rho = s[0] as int;
            assert forall|r: int| 0 <= r < n && s[r] == r implies r == rho by {
                assert(self.rel()(0, r));
            }
            lemma_roots_single(s, rho, n);
        } else {
            let (i, j) = choose|i: int, j: int|
                0 <= i < n && 0 <= j < n && !#[trigger] self.rel()(i, j);
            let (r1, r2) = if s[i] < s[j] {
                (s[i] as int, s[j] as int)
            } else {
                (s[j] as int, s[i] as int)
            };
            assert(s[r1] == r1 && s[r2] == r2);
            lemma_roots_two(s, r1, r2, n);
        }
    }
}

proof fn lemma_count_rel_label(m: ConnectivityMerger, w: int, k: int)
    requires
        m.wf(),
        0 <= w < m.n(),
        0 <= k <= m.n(),
    ensures
        count_rel(m.rel(), w, k) == count_label(m.label@, m.label@[w] as int, k),
    decreases k,
{
    if k > 0 {
        lemma_count_rel_label(m, w, k - 1);
    }
}

proof fn lemma_count_label_pos(s: Seq<usize>, r: int, j: int, k: int)
    requires
        0 <= j < k <= s.len(),
        s[j] == r,
    ensures
        count_label(s, r, k) > 0,
    decreases k,
{
    if j < k - 1 {
        lemma_count_label_pos(s, r, j, k - 1);
    }
}

proof fn lemma_count_label_zero(s: Seq<usize>, r: int, k: int)
    requires
        0 <= k <= s.len(),
        0 <= r < s.len(),
        s[r] != r,
        forall|i: int| 0 <= i < s.len() ==> #[trigger] s[i] < s.len() && s[s[i] as int] == s[i],
    ensures
        count_label(s, r, k) == 0,
    decreases k,
{
    if k > 0 {
        lemma_count_label_zero(s, r, k - 1);
        assert(s[k - 1] < s.len());
    }
}

proof fn lemma_roots_single(s: Seq<usize>, rho: int, k: int)
    requires
        0 <= k <= s.len(),
        0 <= rho < s.len(),
        s[rho] == rho,
        forall|r: int| 0 <= r < s.len() && s[r] == r ==> r == rho,
    ensures
        roots_below(s, k) == if rho < k {
            1nat
        } else {
            0nat
        },
    decreases k,
{
    if k > 0 {
        lemma_roots_single(s, rho, k - 1);
    }
}

proof fn lemma_roots_two(s: Seq<usize>, r1: int, r2: int, k: int)
    requires
        0 <= r1 < r2 < k <= s.len(),
        s[r1] == r1,
        s[r2] == r2,
    ensures
        roots_below(s, k) >= 2,
    decreases k,
{
    if r2 < k - 1 {
        lemma_roots_two(s, r1, r2, k - 1);
    } else {
        lemma_root_counted(s, r1, k - 1);
    }
}

proof fn lemma_roots_prefix(s: Seq<usize>, t: Seq<usize>, k: int)
    requires
        0 <= k <= t.len(),
        k <= s.len(),
        forall|j: int| 0 <= j < k ==> s[j] == t[j],
    ensures
        roots_below(s, k) == roots_below(t, k),
    decreases k,
{
    if k > 0 {
        lemma_roots_prefix(s, t, k - 1);
    }
}

/// A representative below `k` is counted among the roots below `k`.
proof fn lemma_root_counted(s: Seq<usize>, r: int, k: int)
    requires
        0 <= r < k <= s.len(),
        s[r] == r,
    ensures
        roots_below(s, k) >= 1,
    decreases k,
{
    if r < k - 1 {
        lemma_root_counted(s, r, k - 1);
    }
}

proof fn lemma_roots_relabel(s: Seq<usize>, t: Seq<usize>, la: int, lb: int, k: int)
    requires
        0 <= k <= s.len(),
        t.len() == s.len(),
        la != lb,
        0 <= la < s.len(),
        0 <= lb < s.len(),
        s[la] == la,
        s[lb] == lb,
        forall|j: int| 0 <= j < s.len() ==> #[trigger] t[j] == (if s[j] as int == lb {
            la as usize
        } else {
            s[j]
        }),
    ensures
        roots_below(t, k) + (if lb < k {
            1nat
        } else {
            0nat
        }) == roots_below(s, k),
    decreases k,
{
    if k > 0 {
        lemma_roots_relabel(s, t, la, lb, k - 1);
    }
}

proof fn lemma_count_label_le(s: Seq<usize>, r: int, k: int)
    requires
        0 <= k <= s.len(),
    ensures
        count_label(s, r, k) <= k,
    decreases k,
{
    if k > 0 {
        lemma_count_label_le(s, r, k - 1);
    }
}

/// The connection relation of a well-formed merger is an equivalence.
pub proof fn lemma_rel_equivalence(m: ConnectivityMerger)
    requires
        m.wf(),
    ensures
        is_equivalence(m.rel()),
{
}

/// Merging an edge into an equivalence yields an equivalence.
pub proof fn lemma_step_equivalence(r: Rel, a: int, b: int)
    requires
        is_equivalence(r),
    ensures
        is_equivalence(step(r, a, b)),
{
    let s = step(r, a, b);
    assert forall|i: int, j: int, k: int| #[trigger] s(i, j) && #[trigger] s(j, k) implies s(i, k) by {
        assert(r(i, i) && r(k, k) && r(a, a) && r(b, b));
        if r(i, a) && r(a, j) {
            assert(r(i, j));
        }
        if r(i, b) && r(b, j) {
            assert(r(i, j));
        }
    }
    assert forall|i: int, j: int| #[trigger] s(i, j) implies s(j, i) by {
        assert(r(i, i) && r(j, j));
    }
    assert forall|i: int| #[trigger] s(i, i) by {
        assert(r(i, i));
    }
}

/// The relation after any sequence of merges is an equivalence.
pub proof fn lemma_joined_by_equivalence(es: Seq<(int, int)>)
    ensures
        is_equivalence(joined_by(es)),
    decreases es.len(),
{
    if es.len() > 0 {
        lemma_joined_by_equivalence(es.drop_last());
        lemma_step_equivalence(joined_by(es.drop_last()), es.last().0, es.last().1);
    } else {
        assert(is_equivalence(identity_rel()));
    }
}

/// Every merged edge connects its endpoints.
pub proof fn lemma_joined_by_covers(es: Seq<(int, int)>)
    ensures
        covers(joined_by(es), es),
    decreases es.len(),
{
    if es.len() > 0 {
        let init = es.drop_last();
        lemma_joined_by_covers(init);
        lemma_joined_by_equivalence(init);
        let r = joined_by(init);
        let (a, b) = es.last();
        assert forall|k: int| 0 <= k < es.len() implies #[trigger] joined_by(es)(
            es[k].0,
            es[k].1,
        ) by {
            if k < es.len() - 1 {
                assert(init[k] == es[k]);
                assert(r(es[k].0, es[k].1));
            } else {
                assert(r(a, a) && r(b, b));
            }
        }
    }
}

/// Whatever an equivalence that connects the endpoints of every edge, it connects
/// all that the merges connect.
pub proof fn lemma_joined_by_least(es: Seq<(int, int)>, q: Rel)
    requires
        is_equivalence(q),
        covers(q, es),
    ensures
        forall|i: int, j: int| #[trigger] joined_by(es)(i, j) ==> q(i, j),
    decreases es.len(),
{
    if es.len() > 0 {
        let init = es.drop_last();
        assert forall|k: int| 0 <= k < init.len() implies #[trigger] q(init[k].0, init[k].1) by {
            assert(es[k] == init[k]);
        }
        lemma_joined_by_least(init, q);
        let (a, b) = es.last();
        assert(q(a, b)) by {
            assert(es[es.len() - 1] == es.last());
        }
        assert forall|i: int, j: int| #[trigger] joined_by(es)(i, j) implies q(i, j) by {
            let r = joined_by(init);
            if r(i, a) && r(b, j) {
                assert(q(i, a) && q(b, j));
            }
            if r(i, b) && r(a, j) {
                assert(q(i, b) && q(a, j));
                assert(q(b, a));
            }
        }
    }
}

/// Two indices are connected after merging `es` exactly when they lie in one
/// component of the graph whose edges are `es`.
pub proof fn lemma_joined_by_closure(es: Seq<(int, int)>)
    ensures
        forall|i: int, j: int| #[trigger] joined_by(es)(i, j) == in_closure(es, i, j),
{
    lemma_joined_by_equivalence(es);
    lemma_joined_by_covers(es);
    assert forall|i: int, j: int| #[trigger] joined_by(es)(i, j) == in_closure(es, i, j) by {
        if joined_by(es)(i, j) {
            assert forall|q: Rel| is_equivalence(q) && covers(q, es) implies #[trigger] q(i, j) by {
                lemma_joined_by_least(es, q);
            }
        }
    }
}

/// Merging an edge a second time changes nothing, and finds its endpoints
/// already connected.
pub proof fn lemma_merge_idempotent(r: Rel, a: int, b: int)
    requires
        is_equivalence(r),
    ensures
        step(r, a, b)(a, b),
        step(step(r, a, b), a, b) == step(r, a, b),
{
    lemma_step_equivalence(r, a, b);
    let s = step(r, a, b);
    assert(r(a, a) && r(b, b));
    assert(step(s, a, b) =~= s) by {
        assert forall|i: int, j: int| #[trigger] step(s, a, b)(i, j) implies s(i, j) by {
            if s(i, a) && s(b, j) {
                assert(s(a, b));
            }
            if s(i, b) && s(a, j) {
                assert(s(b, a));
            }
        }
    }
}

/// The partition that a set of edges yields does not depend on the order in
/// which they are merged.
pub proof fn lemma_order_independent(es1: Seq<(int, int)>, es2: Seq<(int, int)>)
    requires
        forall|e: (int, int)| es1.contains(e) <==> es2.contains(e),
    ensures
        joined_by(es1) == joined_by(es2),
{
    lemma_joined_by_closure(es1);
    lemma_joined_by_closure(es2);
    assert forall|q: Rel| #[trigger] covers(q, es1) <==> covers(q, es2) by {
        if covers(q, es1) {
            assert forall|k: int| 0 <= k < es2.len() implies #[trigger] q(es2[k].0, es2[k].1) by {
                assert(es2.contains(es2[k]));
                let m = choose|m: int| 0 <= m < es1.len() && es1[m] == es2[k];
                assert(q(es1[m].0, es1[m].1));
            }
        }
        if covers(q, es2) {
            assert forall|k: int| 0 <= k < es1.len() implies #[trigger] q(es1[k].0, es1[k].1) by {
                assert(es1.contains(es1[k]));
                let m = choose|m: int| 0 <= m < es2.len() && es2[m] == es1[k];
                assert(q(es2[m].0, es2[m].1));
            }
        }
    }
    assert forall|i: int, j: int| #[trigger] joined_by(es1)(i, j) == joined_by(es2)(i, j) by {
        assert(in_closure(es1, i, j) == in_closure(es2, i, j));
    }
    assert(joined_by(es1) =~= joined_by(es2));
}

} // verus!
