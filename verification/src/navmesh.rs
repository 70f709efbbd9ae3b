//! Waypoint graph over open water: node sampling on the land raster and
//! pruning of the graph to its largest connected component.
//!
//! Nodes come from two passes over the raster. The open-water pass takes
//! every cell of a coarse lattice whose distance to land reaches a
//! minimum. The channel pass splits the raster into square blocks and, in
//! each block holding both land and sea, takes the deepest sea cell (the
//! first one, in row-major order, of greatest distance to land), which
//! finds straits and river mouths the coarse lattice misses. Edges join
//! nodes with a clear line of sight; only the largest connected component
//! is kept, renumbered in node order.

use vstd::prelude::*;
use crate::map::land::{in_grid, LandGrid};

verus! {

/// A node of the graph at position `pos`.
#[derive(Debug, Clone, Copy)]
pub struct Node<P> {
    pub pos: P,
}

/// An edge towards node `to`, carrying its length `dist`.
#[derive(Debug, Clone, Copy)]
pub struct Edge<D> {
    pub to: u32,
    pub dist: D,
}

// ---------------------------------------------------------------------------
// Connected components

/// Every edge of `adj` points at a node of `adj`.
pub open spec fn edges_in_range<D>(adj: Seq<Vec<Edge<D>>>) -> bool {
    forall|u: int, k: int| 0 <= u < adj.len() && 0 <= k < adj[u]@.len() ==> (#[trigger] adj[u]@[k]).to < adj.len()
}

/// `comp` labels the nodes with components `0 .. count`, every label in
/// use; every edge leads to a component numbered no higher than its
/// source's (so, on an undirected graph stored both ways, both ends of an
/// edge share their component).
pub open spec fn is_component_labelling<D>(adj: Seq<Vec<Edge<D>>>, comp: Seq<i32>, count: int) -> bool {
    &&& comp.len() == adj.len()
    &&& forall|u: int| 0 <= u < comp.len() ==> 0 <= #[trigger] comp[u] < count
    &&& forall|u: int, k: int| 0 <= u < adj.len() && 0 <= k < adj[u]@.len() ==> comp[(#[trigger] adj[u]@[k]).to as int] <= comp[u]
    &&& forall|l: int| 0 <= l < count ==> #[trigger] label_used(comp, l)
}

/// Some node carries label `l`.
pub open spec fn label_used(comp: Seq<i32>, l: int) -> bool {
    exists|u: int| 0 <= u < comp.len() && #[trigger] comp[u] == l
}

/// `adj` has an edge from `a` to `b`.
pub open spec fn has_edge<D>(adj: Seq<Vec<Edge<D>>>, a: int, b: int) -> bool {
    exists|k: int| 0 <= k < adj[a]@.len() && (#[trigger] adj[a]@[k]).to == b
}

/// Step `i` of `p` follows an edge.
pub open spec fn step_ok<D>(adj: Seq<Vec<Edge<D>>>, p: Seq<int>, i: int) -> bool {
    has_edge(adj, p[i], p[i + 1])
}

/// `p` is a walk along the edges of `adj`.
pub open spec fn is_walk<D>(adj: Seq<Vec<Edge<D>>>, p: Seq<int>) -> bool {
    &&& p.len() >= 1
    &&& forall|i: int| 0 <= i < p.len() ==> 0 <= #[trigger] p[i] < adj.len()
    &&& forall|i: int| 0 <= i < p.len() - 1 ==> #[trigger] step_ok(adj, p, i)
}

/// Some walk along `adj` leads from `a` to `b`.
pub open spec fn reaches<D>(adj: Seq<Vec<Edge<D>>>, a: int, b: int) -> bool {
    exists|p: Seq<int>| #[trigger] is_walk(adj, p) && p[0] == a && p.last() == b
}

/// `u` is the lowest node carrying its label.
pub open spec fn is_lowest(comp: Seq<i32>, u: int) -> bool {
    forall|w: int| 0 <= w < u ==> #[trigger] comp[w] != comp[u]
}

proof fn lemma_reaches_self<D>(adj: Seq<Vec<Edge<D>>>, a: int)
    requires
        0 <= a < adj.len(),
    ensures
        reaches(adj, a, a),
{
    let p = seq![a];
    assert(is_walk(adj, p));
}

proof fn lemma_reaches_step<D>(adj: Seq<Vec<Edge<D>>>, a: int, u: int, k: int)
    requires
        reaches(adj, a, u),
        0 <= u < adj.len(),
        0 <= k < adj[u]@.len(),
        adj[u]@[k].to < adj.len(),
    ensures
        reaches(adj, a, adj[u]@[k].to as int),
{
    let p = choose|p: Seq<int>| #[trigger] is_walk(adj, p) && p[0] == a && p.last() == u;
    let v = adj[u]@[k].to as int;
    let q = p.push(v);
    assert(has_edge(adj, u, v));
    assert forall|i: int| 0 <= i < q.len() - 1 implies #[trigger] step_ok(adj, q, i) by {
        if i < p.len() - 1 {
            assert(step_ok(adj, p, i));
            assert(q[i] == p[i] && q[i + 1] == p[i + 1]);
        } else {
            assert(q[i] == u && q[i + 1] == v);
        }
    }
    assert forall|i: int| 0 <= i < q.len() implies 0 <= #[trigger] q[i] < adj.len() by {
        if i < p.len() {
            assert(q[i] == p[i]);
        }
    }
    assert(is_walk(adj, q));
}

/// Flood-fill bookkeeping: `roots[l]` is where label `l`'s fill started;
/// roots increase with their labels, each labelled node lies at or after
/// its label's root and is reached from it.
spec fn flood_ok<D>(adj: Seq<Vec<Edge<D>>>, comp: Seq<i32>, roots: Seq<int>) -> bool {
    &&& forall|l: int| 0 <= l < roots.len() ==> 0 <= #[trigger] roots[l] < comp.len() && comp[roots[l]] == l
    &&& forall|l1: int, l2: int| 0 <= l1 < l2 < roots.len() ==> #[trigger] roots[l1] < #[trigger] roots[l2]
    &&& forall|v: int|
        0 <= v < comp.len() && #[trigger] comp[v] != -1 ==> 0 <= comp[v] < roots.len() && roots[comp[v] as int] <= v
            && reaches(adj, roots[comp[v] as int], v)
}

proof fn lemma_flood_label<D>(adj: Seq<Vec<Edge<D>>>, comp: Seq<i32>, roots: Seq<int>, v: int)
    requires
        flood_ok(adj, comp, roots),
        roots.len() >= 1,
        roots.len() - 1 <= i32::MAX,
        0 <= v < comp.len(),
        comp[v] == -1,
        roots[roots.len() - 1] <= v,
        reaches(adj, roots[roots.len() - 1], v),
    ensures
        flood_ok(adj, comp.update(v, (roots.len() - 1) as i32), roots),
{
    let c2 = comp.update(v, (roots.len() - 1) as i32);
    assert forall|l: int| 0 <= l < roots.len() implies 0 <= #[trigger] roots[l] < c2.len() && c2[roots[l]] == l by {
        assert(comp[roots[l]] == l);
    }
    assert forall|w: int| 0 <= w < c2.len() && #[trigger] c2[w] != -1 implies 0 <= c2[w] < roots.len() && roots[c2[w] as int] <= w
        && reaches(adj, roots[c2[w] as int], w) by {
        if w != v {
            assert(comp[w] == c2[w]);
        }
    }
}

proof fn lemma_flood_start<D>(adj: Seq<Vec<Edge<D>>>, comp: Seq<i32>, roots: Seq<int>, s: int)
    requires
        flood_ok(adj, comp, roots),
        comp.len() == adj.len(),
        roots.len() <= i32::MAX,
        0 <= s < comp.len(),
        comp[s] == -1,
        forall|l: int| 0 <= l < roots.len() ==> #[trigger] roots[l] < s,
    ensures
        flood_ok(adj, comp.update(s, roots.len() as i32), roots.push(s)),
{
    let r2 = roots.push(s);
    let c2 = comp.update(s, roots.len() as i32);
    lemma_reaches_self(adj, s);
    assert forall|l1: int, l2: int| 0 <= l1 < l2 < r2.len() implies #[trigger] r2[l1] < #[trigger] r2[l2] by {
        if l2 == roots.len() {
            assert(roots[l1] < s);
        } else {
            assert(roots[l1] < roots[l2]);
        }
    }
    assert forall|l: int| 0 <= l < r2.len() implies 0 <= #[trigger] r2[l] < c2.len() && c2[r2[l]] == l by {
        if l < roots.len() {
            assert(r2[l] == roots[l]);
            assert(roots[l] < s);
            assert(comp[roots[l]] == l);
        } else {
            assert(r2[l] == s);
        }
    }
    assert forall|v: int| 0 <= v < c2.len() && #[trigger] c2[v] != -1 implies 0 <= c2[v] < r2.len() && r2[c2[v] as int] <= v
        && reaches(adj, r2[c2[v] as int], v) by {
        if v != s {
            assert(comp[v] == c2[v]);
            assert(r2[comp[v] as int] == roots[comp[v] as int]);
        } else {
            assert(r2[roots.len() as int] == s);
        }
    }
}

proof fn lemma_flood_done<D>(adj: Seq<Vec<Edge<D>>>, comp: Seq<i32>, roots: Seq<int>)
    requires
        flood_ok(adj, comp, roots),
        comp.len() == adj.len(),
        forall|v: int| 0 <= v < comp.len() ==> #[trigger] comp[v] != -1,
    ensures
        forall|u: int, v: int|
            0 <= u < adj.len() && 0 <= v < adj.len() && comp[u] == comp[v] && #[trigger] is_lowest(comp, u) ==> #[trigger] reaches(
                adj,
                u,
                v,
            ),
        forall|u: int, v: int| 0 <= u < v < adj.len() && #[trigger] is_lowest(comp, v) ==> #[trigger] comp[u] < comp[v],
{
    assert forall|u: int| 0 <= u < adj.len() && #[trigger] is_lowest(comp, u) implies roots[comp[u] as int] == u by {
        assert(comp[u] != -1);
        let r = roots[comp[u] as int];
        assert(comp[r] == comp[u]);
        if r < u {
            assert(comp[r] != comp[u]);
        }
    }
    assert forall|u: int, v: int|
        0 <= u < adj.len() && 0 <= v < adj.len() && comp[u] == comp[v] && #[trigger] is_lowest(comp, u) implies #[trigger] reaches(
            adj,
            u,
            v,
        ) by {
        assert(comp[v] != -1);
        assert(roots[comp[u] as int] == u);
    }
    assert forall|u: int, v: int| 0 <= u < v < adj.len() && #[trigger] is_lowest(comp, v) implies #[trigger] comp[u] < comp[v] by {
        assert(comp[u] != -1);
        assert(comp[v] != -1);
        assert(roots[comp[v] as int] == v);
        let lu = comp[u] as int;
        let lv = comp[v] as int;
        assert(roots[lu] <= u);
        if lu > lv {
            assert(roots[lv] < roots[lu]);
        }
        if lu == lv {
            assert(roots[lu] == v);
        }
    }
}

/// Label connected components by flood fill from each unlabelled node in
/// turn, numbering them from 0 in order of their lowest node; returns the
/// labels and the number of components.
pub fn label_components<D>(adj: &Vec<Vec<Edge<D>>>) -> (r: (Vec<i32>, i32))
    requires
        edges_in_range(adj@),
        adj@.len() <= i32::MAX,
    ensures
        is_component_labelling(adj@, r.0@, r.1 as int),
        0 <= r.1 <= adj@.len(),
        forall|u: int, v: int|
            0 <= u < adj@.len() && 0 <= v < adj@.len() && r.0@[u] == r.0@[v] && #[trigger] is_lowest(r.0@, u) ==> #[trigger] reaches(
                adj@,
                u,
                v,
            ),
        forall|u: int, v: int| 0 <= u < v < adj@.len() && #[trigger] is_lowest(r.0@, v) ==> #[trigger] r.0@[u] < r.0@[v],
{
    let n = adj.len();
    let mut comp: Vec<i32> = Vec::new();
    let mut i: usize = 0;
    while i < n
        invariant
            i <= n,
            comp@.len() == i,
            forall|u: int| 0 <= u < i ==> comp@[u] == -1,
        decreases n - i,
    {
        comp.push(-1);
        i = i + 1;
    }
    let ghost mut unl: Set<int> = Set::new(|u: int| 0 <= u < n);
    proof {
        assert(unl =~= vstd::set_lib::set_int_range(0, n as int));
        vstd::set_lib::lemma_int_range(0, n as int);
    }
    let mut next_id: i32 = 0;
    let mut s: usize = 0;
    let ghost mut roots: Seq<int> = Seq::empty();
    while s < n
        invariant
            roots.len() == next_id,
            flood_ok(adj@, comp@, roots),
            forall|l: int| 0 <= l < roots.len() ==> #[trigger] roots[l] < s,
            n == adj@.len(),
            n <= i32::MAX,
            edges_in_range(adj@),
            comp@.len() == n,
            s <= n,
            0 <= next_id <= s,
            unl.finite(),
            forall|u: int| #[trigger] unl.contains(u) <==> 0 <= u < n && comp@[u] == -1,
            forall|u: int| 0 <= u < s ==> #[trigger] comp@[u] != -1,
            forall|u: int| 0 <= u < n ==> -1 <= #[trigger] comp@[u] < next_id,
            forall|u: int, k: int| 0 <= u < n && 0 <= k < adj@[u]@.len() && comp@[u] != -1 ==> comp@[(#[trigger] adj@[u]@[k]).to as int] != -1
                && comp@[adj@[u]@[k].to as int] <= comp@[u],
            forall|l: int| 0 <= l < next_id ==> #[trigger] label_used(comp@, l),
        decreases n - s,
    {
        if comp[s] == -1 {
            let ghost comp_pre = comp@;
            proof {
                lemma_flood_start(adj@, comp@, roots, s as int);
            }
            comp.set(s, next_id);
            proof {
                roots = roots.push(s as int);
                unl = unl.remove(s as int);
                assert forall|l: int| 0 <= l < next_id implies #[trigger] label_used(comp@, l) by {
                    assert(label_used(comp_pre, l));
                    let w = choose|w: int| 0 <= w < comp_pre.len() && #[trigger] comp_pre[w] == l;
                    assert(comp@[w] == l);
                    assert(label_used(comp@, l));
                }
            }
            let mut stack: Vec<usize> = Vec::new();
            stack.push(s);
            proof {
                assert forall|u: int, k: int| 0 <= u < n && 0 <= k < adj@[u]@.len() && comp@[u] != -1 && !stack@.contains(u as usize)
                    implies comp@[(#[trigger] adj@[u]@[k]).to as int] != -1 && comp@[adj@[u]@[k].to as int] <= comp@[u] by {
                    if u == s as int {
                        assert(stack@[0] == s);
                    }
                    assert(comp_pre[u] != -1);
                    let t = adj@[u]@[k].to as int;
                    assert(comp_pre[t] != -1);
                }
            }
            while stack.len() > 0
                invariant
                    roots.len() == next_id + 1,
                    roots[next_id as int] == s,
                    flood_ok(adj@, comp@, roots),
                    forall|l: int| 0 <= l < roots.len() ==> #[trigger] roots[l] <= s,
                    n == adj@.len(),
                    n <= i32::MAX,
                    edges_in_range(adj@),
                    comp@.len() == n,
                    s < n,
                    0 <= next_id <= s,
                    comp@[s as int] == next_id,
                    unl.finite(),
                    forall|u: int| #[trigger] unl.contains(u) <==> 0 <= u < n && comp@[u] == -1,
                    forall|u: int| 0 <= u < s ==> #[trigger] comp@[u] != -1,
                    forall|u: int| 0 <= u < n ==> -1 <= #[trigger] comp@[u] <= next_id,
                    forall|j: int| 0 <= j < stack@.len() ==> (#[trigger] stack@[j]) < n && comp@[stack@[j] as int] == next_id,
                    forall|u: int, k: int| 0 <= u < n && 0 <= k < adj@[u]@.len() && comp@[u] != -1 && !stack@.contains(u as usize)
                        ==> comp@[(#[trigger] adj@[u]@[k]).to as int] != -1 && comp@[adj@[u]@[k].to as int] <= comp@[u],
                    forall|l: int| 0 <= l < next_id ==> #[trigger] label_used(comp@, l),
                decreases 2 * unl.len() + stack@.len(),
            {
                let ghost m0 = 2 * unl.len() + stack@.len();
                let ghost stack0 = stack@;
                let ghost comp0 = comp@;
                let u = stack.pop().unwrap();
                assert(stack0 == stack@.push(u));
                let ghost stack1 = stack@;
                let mut k: usize = 0;
                let deg = adj[u].len();
                while k < deg
                    invariant
                        roots.len() == next_id + 1,
                        roots[next_id as int] == s,
                        flood_ok(adj@, comp@, roots),
                        forall|l: int| 0 <= l < roots.len() ==> #[trigger] roots[l] <= s,
                        n == adj@.len(),
                        n <= i32::MAX,
                        edges_in_range(adj@),
                        u < n,
                        deg == adj@[u as int]@.len(),
                        k <= deg,
                        comp@.len() == n,
                        comp0.len() == n,
                        s < n,
                        0 <= next_id <= s,
                        comp@[s as int] == next_id,
                        comp@[u as int] == next_id,
                        unl.finite(),
                        2 * unl.len() + stack@.len() < m0,
                        forall|v: int| #[trigger] unl.contains(v) <==> 0 <= v < n && comp@[v] == -1,
                        forall|v: int| 0 <= v < s ==> #[trigger] comp@[v] != -1,
                        forall|v: int| 0 <= v < n ==> -1 <= #[trigger] comp@[v] <= next_id,
                        forall|v: int| 0 <= v < n && comp0[v] != -1 ==> #[trigger] comp@[v] == comp0[v],
                        forall|v: int| 0 <= v < n && comp0[v] == -1 && #[trigger] comp@[v] != -1 ==> stack@.contains(v as usize),
                        stack@.len() >= stack1.len(),
                        forall|j: int| 0 <= j < stack1.len() ==> #[trigger] stack@[j] == stack1[j],
                        forall|j: int| 0 <= j < stack@.len() ==> (#[trigger] stack@[j]) < n && comp@[stack@[j] as int] == next_id,
                        forall|j: int| 0 <= j < k ==> comp@[(#[trigger] adj@[u as int]@[j]).to as int] != -1
                            && comp@[adj@[u as int]@[j].to as int] <= next_id,
                        forall|l: int| 0 <= l < next_id ==> #[trigger] label_used(comp@, l),
                    decreases deg - k,
                {
                    let v = adj[u][k].to as usize;
                    if comp[v] == -1 {
                        let ghost comp_pre = comp@;
                        let ghost stack_pre = stack@;
                        proof {
                            assert(comp@[u as int] != -1);
                            assert(reaches(adj@, s as int, u as int));
                            lemma_reaches_step(adj@, s as int, u as int, k as int);
                            if (v as int) < s {
                                assert(comp@[v as int] != -1);
                            }
                            lemma_flood_label(adj@, comp@, roots, v as int);
                        }
                        comp.set(v, next_id);
                        proof {
                            unl = unl.remove(v as int);
                        }
                        stack.push(v);
                        proof {
                            assert forall|l: int| 0 <= l < next_id implies #[trigger] label_used(comp@, l) by {
                                assert(label_used(comp_pre, l));
                    let w = choose|w: int| 0 <= w < comp_pre.len() && #[trigger] comp_pre[w] == l;
                                assert(comp@[w] == l);
                                assert(label_used(comp@, l));
                            }
                            assert forall|x: int| 0 <= x < n && comp0[x] == -1 && #[trigger] comp@[x] != -1 implies stack@.contains(x as usize) by {
                                if x == v {
                                    assert(stack@[stack@.len() - 1] == v);
                                } else {
                                    assert(comp_pre[x] != -1);
                                    let j = choose|j: int| 0 <= j < stack_pre.len() && stack_pre[j] == x as usize;
                                    assert(stack@[j] == x as usize);
                                }
                            }
                        }
                    }
                    k = k + 1;
                }
                proof {
                    assert forall|w: int, j: int| 0 <= w < n && 0 <= j < adj@[w]@.len() && comp@[w] != -1 && !stack@.contains(w as usize)
                        implies comp@[(#[trigger] adj@[w]@[j]).to as int] != -1 && comp@[adj@[w]@[j].to as int] <= comp@[w] by {
                        if w == u as int {
                        } else if comp0[w] != -1 {
                            if stack0.contains(w as usize) {
                                let i = choose|i: int| 0 <= i < stack0.len() && stack0[i] == w as usize;
                                assert(i < stack1.len());
                                assert(stack@[i] == w as usize);
                            }
                            let t = adj@[w]@[j].to as int;
                            assert(comp0[t] != -1 && comp0[t] <= comp0[w]);
                        } else {
                        }
                    }
                }
            }
            proof {
                assert(comp@[s as int] == next_id);
                assert(label_used(comp@, next_id as int));
            }
            next_id = next_id + 1;
        }
        s = s + 1;
    }
    proof {
        lemma_flood_done(adj@, comp@, roots);
    }
    (comp, next_id)
}

/// How many entries of `s` equal `l`.
pub open spec fn count_label(s: Seq<i32>, l: int) -> nat
    decreases s.len(),
{
    if s.len() == 0 {
        0
    } else {
        count_label(s.drop_last(), l) + (if s.last() == l { 1nat } else { 0nat })
    }
}

proof fn lemma_count_label_step(s: Seq<i32>, i: int, l: int)
    requires
        0 <= i < s.len(),
    ensures
        count_label(s.take(i + 1), l) == count_label(s.take(i), l) + (if s[i] == l { 1nat } else { 0nat }),
{
    assert(s.take(i + 1).drop_last() =~= s.take(i));
}

proof fn lemma_count_label_bound(s: Seq<i32>, l: int)
    ensures
        count_label(s, l) <= s.len(),
    decreases s.len(),
{
    if s.len() > 0 {
        lemma_count_label_bound(s.drop_last(), l);
    }
}

/// The label carried by the most nodes (the lowest such label on a tie),
/// or 0 when there are no nodes. Labels must lie in `0 .. count`.
pub fn largest_component(comp: &Vec<i32>, count: i32) -> (m: i32)
    requires
        comp@.len() <= u32::MAX,
        0 <= count,
        forall|u: int| 0 <= u < comp@.len() ==> 0 <= #[trigger] comp@[u] < count,
    ensures
        comp@.len() == 0 ==> m == 0,
        comp@.len() > 0 ==> 0 <= m < count,
        forall|l: int| 0 <= l < count ==> count_label(comp@, l) <= count_label(comp@, m as int),
{
    let mut counts: Vec<u32> = Vec::new();
    let mut l: i32 = 0;
    while l < count
        invariant
            0 <= l <= count,
            counts@.len() == l,
            forall|j: int| 0 <= j < l ==> counts@[j] == 0,
        decreases count - l,
    {
        counts.push(0);
        l = l + 1;
    }
    let n = comp.len();
    let mut i: usize = 0;
    while i < n
        invariant
            n == comp@.len(),
            n <= u32::MAX,
            i <= n,
            counts@.len() == count,
            forall|u: int| 0 <= u < comp@.len() ==> 0 <= #[trigger] comp@[u] < count,
            forall|j: int| 0 <= j < count ==> #[trigger] counts@[j] == count_label(comp@.take(i as int), j),
        decreases n - i,
    {
        let c = comp[i] as usize;
        proof {
            assert forall|j: int| 0 <= j < count implies count_label(comp@.take(i + 1), j) == count_label(comp@.take(i as int), j)
                + (if comp@[i as int] == j { 1nat } else { 0nat }) by {
                lemma_count_label_step(comp@, i as int, j);
            }
            lemma_count_label_bound(comp@.take(i as int), c as int);
        }
        let v = counts[c];
        counts.set(c, v + 1);
        i = i + 1;
    }
    assert(comp@.take(n as int) =~= comp@);
    if n == 0 || count == 0 {
        if n > 0 {
            assert(comp@[0] < count);
        }
        return 0;
    }
    let mut best: usize = 0;
    let mut j: usize = 1;
    while j < count as usize
        invariant
            1 <= j <= count,
            counts@.len() == count,
            best < j,
            forall|k: int| 0 <= k < j ==> counts@[k] <= counts@[best as int],
            forall|k: int| 0 <= k < count ==> #[trigger] counts@[k] == count_label(comp@, k),
        decreases count - j,
    {
        if counts[j] > counts[best] {
            best = j;
        }
        j = j + 1;
    }
    assert forall|l: int| 0 <= l < count implies count_label(comp@, l) <= count_label(comp@, best as int) by {
        assert(counts@[l] == count_label(comp@, l));
        assert(counts@[best as int] == count_label(comp@, best as int));
    }
    best as i32
}

proof fn lemma_kept_before_mono(comp: Seq<i32>, l: int, j: int, i: int)
    requires
        0 <= j < i <= comp.len(),
        comp[j] == l,
    ensures
        kept_before(comp, l, j) < kept_before(comp, l, i),
    decreases i - j,
{
    lemma_count_label_step(comp, i - 1, l);
    if i - 1 > j {
        lemma_kept_before_mono(comp, l, j, i - 1);
    }
}

/// How many of the first `i` nodes carry label `l`: the new number of the
/// `i`-th node once only label `l` is kept.
pub open spec fn kept_before(comp: Seq<i32>, l: int, i: int) -> nat {
    count_label(comp.take(i), l)
}

/// Edge `e` of the graph restricted to label `l`: renumbered, or dropped
/// when it leaves the component.
pub open spec fn kept_edge<D>(comp: Seq<i32>, l: int, e: Edge<D>) -> Option<Edge<D>> {
    if comp[e.to as int] == l {
        Some(Edge { to: kept_before(comp, l, e.to as int) as u32, dist: e.dist })
    } else {
        None
    }
}

/// Keep only the nodes labelled `keep`, renumbered in node order. Returns
/// the new number of each old node (-1 for a dropped one) and the new
/// adjacency: each kept node's edges towards kept nodes, in their old
/// order, renumbered, with their lengths.
pub fn prune_to_component<D: Copy>(adj: &Vec<Vec<Edge<D>>>, comp: &Vec<i32>, keep: i32) -> (r: (Vec<i32>, Vec<Vec<Edge<D>>>))
    requires
        edges_in_range(adj@),
        comp@.len() == adj@.len(),
        adj@.len() <= i32::MAX,
    ensures
        r.0@.len() == adj@.len(),
        forall|i: int| 0 <= i < adj@.len() ==> #[trigger] r.0@[i] == (if comp@[i] == keep { kept_before(comp@, keep as int, i) as int } else { -1 }),
        r.1@.len() == count_label(comp@, keep as int),
        forall|i: int| 0 <= i < adj@.len() && comp@[i] == keep ==> (#[trigger] r.1@[kept_before(comp@, keep as int, i) as int])@
            == adj@[i]@.filter_map(|e: Edge<D>| kept_edge(comp@, keep as int, e)),
{
    let n = adj.len();
    let mut remap: Vec<i32> = Vec::new();
    let mut kept: i32 = 0;
    let mut i: usize = 0;
    while i < n
        invariant
            n == adj@.len(),
            n <= i32::MAX,
            comp@.len() == n,
            i <= n,
            remap@.len() == i,
            kept == kept_before(comp@, keep as int, i as int),
            kept <= i,
            forall|j: int| 0 <= j < i ==> #[trigger] remap@[j] == (if comp@[j] == keep { kept_before(comp@, keep as int, j) as int } else { -1 }),
        decreases n - i,
    {
        proof {
            lemma_count_label_step(comp@, i as int, keep as int);
        }
        if comp[i] == keep {
            remap.push(kept);
            kept = kept + 1;
        } else {
            remap.push(-1);
        }
        i = i + 1;
    }
    assert(comp@.take(n as int) =~= comp@);
    let mut new_adj: Vec<Vec<Edge<D>>> = Vec::new();
    let mut i: usize = 0;
    while i < n
        invariant
            n == adj@.len(),
            n <= i32::MAX,
            comp@.len() == n,
            edges_in_range(adj@),
            i <= n,
            remap@.len() == n,
            forall|j: int| 0 <= j < n ==> #[trigger] remap@[j] == (if comp@[j] == keep { kept_before(comp@, keep as int, j) as int } else { -1 }),
            new_adj@.len() == kept_before(comp@, keep as int, i as int),
            forall|j: int| 0 <= j < i && comp@[j] == keep ==> (#[trigger] new_adj@[kept_before(comp@, keep as int, j) as int])@
                == adj@[j]@.filter_map(|e: Edge<D>| kept_edge(comp@, keep as int, e)),
        decreases n - i,
    {
        proof {
            lemma_count_label_step(comp@, i as int, keep as int);
        }
        if comp[i] == keep {
            let mut edges: Vec<Edge<D>> = Vec::new();
            let deg = adj[i].len();
            let mut k: usize = 0;
            while k < deg
                invariant
                    n == adj@.len(),
                    comp@.len() == n,
                    edges_in_range(adj@),
                    i < n,
                    deg == adj@[i as int]@.len(),
                    k <= deg,
                    remap@.len() == n,
                    forall|j: int| 0 <= j < n ==> #[trigger] remap@[j] == (if comp@[j] == keep { kept_before(comp@, keep as int, j) as int } else { -1 }),
                    edges@ == adj@[i as int]@.take(k as int).filter_map(|e: Edge<D>| kept_edge(comp@, keep as int, e)),
                decreases deg - k,
            {
                let e = adj[i][k];
                proof {
                    adj@[i as int]@.lemma_filter_map_take_succ(|e: Edge<D>| kept_edge(comp@, keep as int, e), k as int);
                }
                let nj = remap[e.to as usize];
                if nj >= 0 {
                    edges.push(Edge { to: nj as u32, dist: e.dist });
                }
                k = k + 1;
            }
            assert(adj@[i as int]@.take(deg as int) =~= adj@[i as int]@);
            let ghost before = new_adj@;
            new_adj.push(edges);
            proof {
                assert forall|j: int| 0 <= j < i + 1 && comp@[j] == keep implies (#[trigger] new_adj@[kept_before(comp@, keep as int, j) as int])@
                    == adj@[j]@.filter_map(|e: Edge<D>| kept_edge(comp@, keep as int, e)) by {
                    if j < i {
                        lemma_kept_before_mono(comp@, keep as int, j, i as int);
                        assert(new_adj@[kept_before(comp@, keep as int, j) as int] == before[kept_before(comp@, keep as int, j) as int]);
                    }
                }
            }
        }
        i = i + 1;
    }
    (remap, new_adj)
}

// ---------------------------------------------------------------------------
// Node sampling

/// Distance to land of cell `(c, r)`, in cells: 0 for land, else the
/// cell's entry of `dist`.
pub open spec fn clearance_at(g: &LandGrid, dist: Seq<u8>, c: int, r: int) -> int {
    if g.sea(c, r) { dist[r * g.width + c] as int } else { 0 }
}

/// Cell `(c1, r1)` comes before `(c2, r2)` in row-major order.
pub open spec fn lex_before(c1: int, r1: int, c2: int, r2: int) -> bool {
    r1 < r2 || (r1 == r2 && c1 < c2)
}

/// Cell `(c, r)` is a node of the open-water pass: a cell of the
/// `s`-lattice whose distance to land is at least `min`.
pub open spec fn open_cell(g: &LandGrid, dist: Seq<u8>, s: int, min: int, c: int, r: int) -> bool {
    &&& in_grid(g.width as int, g.height as int, c, r)
    &&& c % s == 0
    &&& r % s == 0
    &&& clearance_at(g, dist, c, r) >= min
}

proof fn lemma_lattice_gap(a: int, b: int, s: int)
    requires
        s >= 1,
        a >= 0,
        a % s == 0,
        b % s == 0,
        a <= b < a + s,
    ensures
        a == b,
{
    vstd::arithmetic::div_mod::lemma_fundamental_div_mod(a, s);
    vstd::arithmetic::div_mod::lemma_fundamental_div_mod(b, s);
    let qa = a / s;
    let qb = b / s;
    assert(qa <= qb < qa + 1) by (nonlinear_arith)
        requires a == s * qa, b == s * qb, a <= b < a + s, s >= 1;
}

/// Cells of the open-water pass: the cells of the `stride`-lattice whose
/// distance to land is at least `min_offshore`, in row-major order.
pub fn open_water_cells(g: &LandGrid, dist: &[u8], stride: u32, min_offshore: u32) -> (out: Vec<(u32, u32)>)
    requires
        g.wf(),
        dist@.len() == g.width * g.height,
        stride >= 1,
    ensures
        forall|i: int| 0 <= i < out@.len() ==> open_cell(g, dist@, stride as int, min_offshore as int, (#[trigger] out@[i]).0 as int, out@[i].1 as int),
        forall|i: int, j: int| 0 <= i < j < out@.len() ==> lex_before((#[trigger] out@[i]).0 as int, out@[i].1 as int, (#[trigger] out@[j]).0 as int, out@[j].1 as int),
        forall|c: int, r: int| #[trigger] open_cell(g, dist@, stride as int, min_offshore as int, c, r) ==> out@.contains((c as u32, r as u32)),
{
    let w: u64 = g.width as u64;
    let h: u64 = g.height as u64;
    let s: u64 = stride as u64;
    let mut out: Vec<(u32, u32)> = Vec::new();
    let mut r: u64 = 0;
    while r < h
        invariant
            g.wf(),
            dist@.len() == g.width * g.height,
            w == g.width,
            h == g.height,
            s == stride,
            s >= 1,
            r % s == 0,
            r <= h + s,
            forall|i: int| 0 <= i < out@.len() ==> open_cell(g, dist@, s as int, min_offshore as int, (#[trigger] out@[i]).0 as int, out@[i].1 as int)
                && out@[i].1 < r,
            forall|i: int, j: int| 0 <= i < j < out@.len() ==> lex_before((#[trigger] out@[i]).0 as int, out@[i].1 as int, (#[trigger] out@[j]).0 as int, out@[j].1 as int),
            forall|c: int, r2: int| #[trigger] open_cell(g, dist@, s as int, min_offshore as int, c, r2) && r2 < r ==> out@.contains((c as u32, r2 as u32)),
        decreases h + s - r,
    {
        let mut c: u64 = 0;
        while c < w
            invariant
                g.wf(),
                dist@.len() == g.width * g.height,
                w == g.width,
                h == g.height,
                s == stride,
                s >= 1,
                r % s == 0,
                r < h,
                c % s == 0,
                c <= w + s,
                forall|i: int| 0 <= i < out@.len() ==> open_cell(g, dist@, s as int, min_offshore as int, (#[trigger] out@[i]).0 as int, out@[i].1 as int)
                    && lex_before(out@[i].0 as int, out@[i].1 as int, c as int, r as int),
                forall|i: int, j: int| 0 <= i < j < out@.len() ==> lex_before((#[trigger] out@[i]).0 as int, out@[i].1 as int, (#[trigger] out@[j]).0 as int, out@[j].1 as int),
                forall|c2: int, r2: int| #[trigger] open_cell(g, dist@, s as int, min_offshore as int, c2, r2) && lex_before(c2, r2, c as int, r as int)
                    ==> out@.contains((c2 as u32, r2 as u32)),
            decreases w + s - c,
        {
            let cu = c as u32;
            let ru = r as u32;
            let d: u32 = if g.is_sea_cell(cu, ru) {
                proof {
                    assert(ru * g.width + cu < g.width * g.height) by (nonlinear_arith)
                        requires ru < g.height, cu < g.width;
                }
                dist[(ru * g.width + cu) as usize] as u32
            } else {
                0
            };
            let ghost before = out@;
            if d >= min_offshore {
                out.push((cu, ru));
                proof {
                    assert(out@[out@.len() - 1] == (cu, ru));
                }
            }
            proof {
                assert forall|c2: int, r2: int| #[trigger] open_cell(g, dist@, s as int, min_offshore as int, c2, r2)
                    && lex_before(c2, r2, c + s, r as int) implies out@.contains((c2 as u32, r2 as u32)) by {
                    if lex_before(c2, r2, c as int, r as int) {
                        assert(before.contains((c2 as u32, r2 as u32)));
                        let k = choose|k: int| 0 <= k < before.len() && before[k] == (c2 as u32, r2 as u32);
                        assert(out@[k] == (c2 as u32, r2 as u32));
                    } else {
                        lemma_lattice_gap(c as int, c2, s as int);
                        assert(out@[out@.len() - 1] == (cu, ru));
                    }
                }
            }
            proof {
                vstd::arithmetic::div_mod::lemma_mod_add_multiples_vanish(c as int, s as int);
            }
            c = c + s;
        }
        proof {
            assert forall|c2: int, r2: int| #[trigger] open_cell(g, dist@, s as int, min_offshore as int, c2, r2)
                && r2 < r + s implies out@.contains((c2 as u32, r2 as u32)) by {
                if r2 >= r {
                    lemma_lattice_gap(r as int, r2, s as int);
                }
            }
        }
        proof {
            vstd::arithmetic::div_mod::lemma_mod_add_multiples_vanish(r as int, s as int);
        }
        r = r + s;
    }
    out
}

/// Cell `(c, r)` lies in the grid and in block `(bc, br)` of side `s`.
pub open spec fn in_block(g: &LandGrid, s: int, bc: int, br: int, c: int, r: int) -> bool {
    &&& in_grid(g.width as int, g.height as int, c, r)
    &&& bc * s <= c < bc * s + s
    &&& br * s <= r < br * s + s
}

/// Block `(bc, br)` holds a sea cell.
pub open spec fn block_has_sea(g: &LandGrid, s: int, bc: int, br: int) -> bool {
    exists|c: int, r: int| #[trigger] in_block(g, s, bc, br, c, r) && g.sea(c, r)
}

/// Block `(bc, br)` holds a land cell.
pub open spec fn block_has_land(g: &LandGrid, s: int, bc: int, br: int) -> bool {
    exists|c: int, r: int| #[trigger] in_block(g, s, bc, br, c, r) && !g.sea(c, r)
}

/// Cell `(c, r)` is a sea cell far enough from land to carry a channel node.
pub open spec fn channel_candidate(g: &LandGrid, dist: Seq<u8>, minc: int, c: int, r: int) -> bool {
    g.sea(c, r) && clearance_at(g, dist, c, r) >= minc
}

/// Cell `(c, r)` is the deepest candidate of block `(bc, br)`: no candidate
/// of the block is farther from land, and none as far comes before it.
pub open spec fn deepest_in_block(g: &LandGrid, dist: Seq<u8>, s: int, minc: int, bc: int, br: int, c: int, r: int) -> bool {
    &&& in_block(g, s, bc, br, c, r)
    &&& channel_candidate(g, dist, minc, c, r)
    &&& forall|c2: int, r2: int| #[trigger] in_block(g, s, bc, br, c2, r2) && channel_candidate(g, dist, minc, c2, r2) ==> clearance_at(g, dist, c2, r2) < clearance_at(g, dist, c, r)
        || (clearance_at(g, dist, c2, r2) == clearance_at(g, dist, c, r) && !lex_before(c2, r2, c, r))
}

/// Cell `(c, r)` is a node of the channel pass: the deepest candidate of a
/// block that holds both land and sea.
pub open spec fn channel_cell(g: &LandGrid, dist: Seq<u8>, s: int, minc: int, c: int, r: int) -> bool {
    &&& block_has_sea(g, s, c / s, r / s)
    &&& block_has_land(g, s, c / s, r / s)
    &&& deepest_in_block(g, dist, s, minc, c / s, r / s, c, r)
}

/// Index of the block of side `s` holding coordinate `c`.
pub open spec fn blk(c: int, s: int) -> int {
    c / s
}

proof fn lemma_block_of(c: int, s: int)
    requires
        s >= 1,
        c >= 0,
    ensures
        (c / s) * s <= c < (c / s) * s + s,
        c / s >= 0,
{
    vstd::arithmetic::div_mod::lemma_fundamental_div_mod(c, s);
    let q = c / s;
    assert(q * s == s * q) by (nonlinear_arith);
    assert(0 <= c % s < s);
    assert(q >= 0) by (nonlinear_arith)
        requires c == s * q + c % s, 0 <= c % s < s, c >= 0, s >= 1;
}

proof fn lemma_div_from_block(c: int, s: int, b: int)
    requires
        s >= 1,
        c >= 0,
        b * s <= c < b * s + s,
    ensures
        c / s == b,
{
    lemma_block_of(c, s);
    let q = c / s;
    assert(q == b) by (nonlinear_arith)
        requires q * s <= c < q * s + s, b * s <= c < b * s + s, s >= 1;
}

/// Cells of the channel pass over blocks of side `stride`: in each block
/// holding both land and sea, its deepest sea cell whose distance to land
/// is at least `min_channel`; in row-major order of the blocks.
pub fn channel_cells(g: &LandGrid, dist: &[u8], stride: u32, min_channel: u32) -> (out: Vec<(u32, u32)>)
    requires
        g.wf(),
        dist@.len() == g.width * g.height,
        stride >= 1,
    ensures
        forall|i: int| 0 <= i < out@.len() ==> channel_cell(g, dist@, stride as int, min_channel as int, (#[trigger] out@[i]).0 as int, out@[i].1 as int),
        forall|i: int, j: int| 0 <= i < j < out@.len() ==> lex_before(
            (#[trigger] out@[i]).0 as int / stride as int,
            out@[i].1 as int / stride as int,
            (#[trigger] out@[j]).0 as int / stride as int,
            out@[j].1 as int / stride as int,
        ),
        forall|c: int, r: int| #[trigger] channel_cell(g, dist@, stride as int, min_channel as int, c, r) ==> out@.contains((c as u32, r as u32)),
{
    let w: u64 = g.width as u64;
    let h: u64 = g.height as u64;
    let s: u64 = stride as u64;
    let ghost si = s as int;
    let ghost mc = min_channel as int;
    let cw: u64 = (w + s - 1) / s;
    let ch: u64 = (h + s - 1) / s;
    proof {
        assert forall|c: int| 0 <= c < w implies #[trigger] blk(c, si) < cw by {
            lemma_block_of(c, si);
            lemma_block_of(w + si - 1, si);
            assert(c / si < cw) by (nonlinear_arith)
                requires (c / si) * si <= c, c < w, cw * si + si > w + si - 1, si >= 1, cw >= 0, c / si >= 0;
        }
        assert forall|r: int| 0 <= r < h implies #[trigger] blk(r, si) < ch by {
            lemma_block_of(r, si);
            lemma_block_of(h + si - 1, si);
            assert(r / si < ch) by (nonlinear_arith)
                requires (r / si) * si <= r, r < h, ch * si + si > h + si - 1, si >= 1, ch >= 0, r / si >= 0;
        }
    }
    proof {
        lemma_block_of(h + si - 1, si);
        lemma_block_of(w + si - 1, si);
    }
    let mut out: Vec<(u32, u32)> = Vec::new();
    let mut br: u64 = 0;
    while br < ch
        invariant
            g.wf(),
            dist@.len() == g.width * g.height,
            w == g.width,
            h == g.height,
            s == stride,
            si == s,
            mc == min_channel,
            s >= 1,
            br <= ch,
            ch * si <= h + si - 1,
            cw * si <= w + si - 1,
            forall|c: int| 0 <= c < w ==> #[trigger] blk(c, si) < cw,
            forall|r: int| 0 <= r < h ==> #[trigger] blk(r, si) < ch,
            forall|i: int| 0 <= i < out@.len() ==> channel_cell(g, dist@, si, mc, (#[trigger] out@[i]).0 as int, out@[i].1 as int)
                && (out@[i].1 as int) / si < br,
            forall|i: int, j: int| 0 <= i < j < out@.len() ==> lex_before(
                (#[trigger] out@[i]).0 as int / stride as int,
                out@[i].1 as int / stride as int,
                (#[trigger] out@[j]).0 as int / stride as int,
                out@[j].1 as int / stride as int,
            ),
            forall|c: int, r: int| #[trigger] channel_cell(g, dist@, si, mc, c, r) && r / si < br ==> out@.contains((c as u32, r as u32)),
        decreases ch - br,
    {
        let mut bc: u64 = 0;
        while bc < cw
            invariant
                g.wf(),
                dist@.len() == g.width * g.height,
                w == g.width,
                h == g.height,
                s == stride,
                si == s,
                mc == min_channel,
                s >= 1,
                br < ch,
                bc <= cw,
                ch * si <= h + si - 1,
                cw * si <= w + si - 1,
                forall|c: int| 0 <= c < w ==> #[trigger] blk(c, si) < cw,
                forall|r: int| 0 <= r < h ==> #[trigger] blk(r, si) < ch,
                forall|i: int| 0 <= i < out@.len() ==> channel_cell(g, dist@, si, mc, (#[trigger] out@[i]).0 as int, out@[i].1 as int)
                    && lex_before((out@[i].0 as int) / si, (out@[i].1 as int) / si, bc as int, br as int),
                forall|i: int, j: int| 0 <= i < j < out@.len() ==> lex_before(
                    (#[trigger] out@[i]).0 as int / stride as int,
                    out@[i].1 as int / stride as int,
                    (#[trigger] out@[j]).0 as int / stride as int,
                    out@[j].1 as int / stride as int,
                ),
                forall|c: int, r: int| #[trigger] channel_cell(g, dist@, si, mc, c, r) && lex_before(c / si, r / si, bc as int, br as int)
                    ==> out@.contains((c as u32, r as u32)),
            decreases cw - bc,
        {
            proof {
                assert(br * s <= h + s) by (nonlinear_arith)
                    requires br < ch, ch * s <= h + s - 1, s >= 1;
                assert(bc * s <= w + s) by (nonlinear_arith)
                    requires bc < cw, cw * s <= w + s - 1, s >= 1;
            }
            let r0: u64 = br * s;
            let c0: u64 = bc * s;
            let r1: u64 = if r0 + s < h { r0 + s } else { h };
            let c1: u64 = if c0 + s < w { c0 + s } else { w };
            let ghost bci = bc as int;
            let ghost bri = br as int;
            let mut has_land = false;
            let mut has_sea = false;
            let mut found = false;
            let mut best_c: u32 = 0;
            let mut best_r: u32 = 0;
            let mut best_d: u32 = 0;
            let ghost mut sea_w: (int, int) = (0, 0);
            let ghost mut land_w: (int, int) = (0, 0);
            let mut rr: u64 = r0;
            while rr < r1
                invariant
                    g.wf(),
                    dist@.len() == g.width * g.height,
                    w == g.width,
                    h == g.height,
                    si == s,
                    mc == min_channel,
                    s >= 1,
                    r0 == bri * si,
                    c0 == bci * si,
                    r1 == (if r0 + s < h { r0 + s } else { h as int }),
                    c1 == (if c0 + s < w { c0 + s } else { w as int }),
                    r0 <= rr,
                    rr <= r1 || r1 <= r0,
                    has_sea ==> in_block(g, si, bci, bri, sea_w.0, sea_w.1) && g.sea(sea_w.0, sea_w.1),
                    !has_sea ==> forall|c2: int, r2: int| #[trigger] in_block(g, si, bci, bri, c2, r2) && r2 < rr ==> !g.sea(c2, r2),
                    has_land ==> in_block(g, si, bci, bri, land_w.0, land_w.1) && !g.sea(land_w.0, land_w.1),
                    !has_land ==> forall|c2: int, r2: int| #[trigger] in_block(g, si, bci, bri, c2, r2) && r2 < rr ==> g.sea(c2, r2),
                    found ==> in_block(g, si, bci, bri, best_c as int, best_r as int) && channel_candidate(g, dist@, mc, best_c as int, best_r as int)
                        && best_d == clearance_at(g, dist@, best_c as int, best_r as int) && (best_r as int) < rr,
                    found ==> forall|c2: int, r2: int| #[trigger] in_block(g, si, bci, bri, c2, r2) && r2 < rr && channel_candidate(g, dist@, mc, c2, r2)
                        ==> clearance_at(g, dist@, c2, r2) < best_d || (clearance_at(g, dist@, c2, r2) == best_d && !lex_before(c2, r2, best_c as int, best_r as int)),
                    !found ==> forall|c2: int, r2: int| #[trigger] in_block(g, si, bci, bri, c2, r2) && r2 < rr ==> !channel_candidate(g, dist@, mc, c2, r2),
                decreases r1 - rr,
            {
                let mut col: u64 = c0;
                while col < c1
                    invariant
                        g.wf(),
                        dist@.len() == g.width * g.height,
                        w == g.width,
                        h == g.height,
                        si == s,
                        mc == min_channel,
                        s >= 1,
                        r0 == bri * si,
                        c0 == bci * si,
                        r1 == (if r0 + s < h { r0 + s } else { h as int }),
                        c1 == (if c0 + s < w { c0 + s } else { w as int }),
                        r0 <= rr < r1,
                        c0 <= col,
                        col <= c1 || c1 <= c0,
                        has_sea ==> in_block(g, si, bci, bri, sea_w.0, sea_w.1) && g.sea(sea_w.0, sea_w.1),
                        !has_sea ==> forall|c2: int, r2: int| #[trigger] in_block(g, si, bci, bri, c2, r2) && lex_before(c2, r2, col as int, rr as int) ==> !g.sea(c2, r2),
                        has_land ==> in_block(g, si, bci, bri, land_w.0, land_w.1) && !g.sea(land_w.0, land_w.1),
                        !has_land ==> forall|c2: int, r2: int| #[trigger] in_block(g, si, bci, bri, c2, r2) && lex_before(c2, r2, col as int, rr as int) ==> g.sea(c2, r2),
                        found ==> in_block(g, si, bci, bri, best_c as int, best_r as int) && channel_candidate(g, dist@, mc, best_c as int, best_r as int)
                            && best_d == clearance_at(g, dist@, best_c as int, best_r as int)
                            && lex_before(best_c as int, best_r as int, col as int, rr as int),
                        found ==> forall|c2: int, r2: int| #[trigger] in_block(g, si, bci, bri, c2, r2) && lex_before(c2, r2, col as int, rr as int) && channel_candidate(g, dist@, mc, c2, r2)
                            ==> clearance_at(g, dist@, c2, r2) < best_d || (clearance_at(g, dist@, c2, r2) == best_d && !lex_before(c2, r2, best_c as int, best_r as int)),
                        !found ==> forall|c2: int, r2: int| #[trigger] in_block(g, si, bci, bri, c2, r2) && lex_before(c2, r2, col as int, rr as int) ==> !channel_candidate(g, dist@, mc, c2, r2),
                    decreases c1 - col,
                {
                    let cu = col as u32;
                    let ru = rr as u32;
                    let ghost ci = col as int;
                    let ghost ri = rr as int;
                    assert(in_block(g, si, bci, bri, ci, ri));
                    assert(cu as int == ci && ru as int == ri);
                    let ghost found0 = found;
                    let ghost bc0 = best_c;
                    let ghost br0 = best_r;
                    if g.is_sea_cell(cu, ru) {
                        has_sea = true;
                        proof { sea_w = (ci, ri); }
                        proof {
                            assert(ru * g.width + cu < g.width * g.height) by (nonlinear_arith)
                                requires ru < g.height, cu < g.width;
                        }
                        let d: u32 = dist[(ru * g.width + cu) as usize] as u32;
                        assert(d == clearance_at(g, dist@, ci, ri));
                        if d >= min_channel && (!found || d > best_d) {
                            found = true;
                            best_c = cu;
                            best_r = ru;
                            best_d = d;
                            assert(channel_candidate(g, dist@, mc, best_c as int, best_r as int));
                        } else {
                            assert(found ==> lex_before(best_c as int, best_r as int, ci + 1, ri));
                            assert(!found ==> !channel_candidate(g, dist@, mc, ci, ri));
                        }
                    } else {
                        has_land = true;
                        proof { land_w = (ci, ri); }
                        assert(!channel_candidate(g, dist@, mc, ci, ri));
                        assert(found ==> lex_before(best_c as int, best_r as int, ci + 1, ri));
                    }
                    proof {
                        assert forall|c2: int, r2: int| lex_before(c2, r2, ci + 1, ri) implies lex_before(c2, r2, ci, ri) || (c2 == ci && r2 == ri) by {}
                    }
                    col = col + 1;
                }
                proof {
                    assert forall|c2: int, r2: int| #[trigger] in_block(g, si, bci, bri, c2, r2) && r2 < rr + 1 implies lex_before(c2, r2, col as int, rr as int) || r2 < rr by {
                    }
                }
                rr = rr + 1;
            }
            proof {
                assert forall|c2: int, r2: int| #[trigger] in_block(g, si, bci, bri, c2, r2) implies r2 < rr by {
                }
            }
            let ghost out0 = out@;
            if has_land && has_sea && found {
                let ghost before = out@;
                out.push((best_c, best_r));
                proof {
                    lemma_div_from_block(best_c as int, si, bci);
                    lemma_div_from_block(best_r as int, si, bri);
                    assert(block_has_sea(g, si, bci, bri));
                    assert(block_has_land(g, si, bci, bri));
                    assert(deepest_in_block(g, dist@, si, mc, bci, bri, best_c as int, best_r as int));
                    assert(channel_cell(g, dist@, si, mc, best_c as int, best_r as int));
                    assert forall|i: int| 0 <= i < out@.len() implies channel_cell(g, dist@, si, mc, (#[trigger] out@[i]).0 as int, out@[i].1 as int)
                        && lex_before((out@[i].0 as int) / si, (out@[i].1 as int) / si, bci + 1, bri) by {
                        if i < before.len() {
                            assert(out@[i] == before[i]);
                        }
                    }
                }
            }
            proof {
                assert forall|c: int, r: int| #[trigger] channel_cell(g, dist@, si, mc, c, r) && lex_before(c / si, r / si, bci + 1, bri)
                    implies out@.contains((c as u32, r as u32)) by {
                    if c / si == bci && r / si == bri {
                        lemma_block_of(c, si);
                        lemma_block_of(r, si);
                        assert(in_block(g, si, bci, bri, c, r));
                        let sw = choose|c3: int, r3: int| #[trigger] in_block(g, si, bci, bri, c3, r3) && g.sea(c3, r3);
                        assert(in_block(g, si, bci, bri, sw.0, sw.1));
                        let lw = choose|c3: int, r3: int| #[trigger] in_block(g, si, bci, bri, c3, r3) && !g.sea(c3, r3);
                        assert(in_block(g, si, bci, bri, lw.0, lw.1));
                        assert(has_sea);
                        assert(has_land);
                        assert(found);
                        assert(best_c as int == c && best_r as int == r);
                        assert(out@[out@.len() - 1] == (c as u32, r as u32));
                    } else {
                        assert(lex_before(c / si, r / si, bci, bri));
                        assert(out0.contains((c as u32, r as u32)));
                        let k = choose|k: int| 0 <= k < out0.len() && out0[k] == (c as u32, r as u32);
                        assert(out@[k] == (c as u32, r as u32));
                    }
                }
            }
            bc = bc + 1;
        }
        proof {
            assert forall|c: int, r: int| #[trigger] channel_cell(g, dist@, si, mc, c, r) && r / si < br + 1
                implies out@.contains((c as u32, r as u32)) by {
                lemma_block_of(c, si);
                lemma_block_of(r, si);
                assert(in_block(g, si, c / si, r / si, c, r));
                assert(blk(c, si) < cw);
            }
        }
        br = br + 1;
    }
    proof {
        assert forall|c: int, r: int| #[trigger] channel_cell(g, dist@, si, mc, c, r) implies out@.contains((c as u32, r as u32)) by {
            assert(blk(r, si) < ch);
        }
    }
    out
}

/// Every edge of `adj` has its reverse: the graph is stored both ways.
pub open spec fn symmetric<D>(adj: Seq<Vec<Edge<D>>>) -> bool {
    forall|u: int, k: int| 0 <= u < adj.len() && 0 <= k < adj[u]@.len() ==> has_edge(adj, (#[trigger] adj[u]@[k]).to as int, u)
}

proof fn lemma_filter_map_has<A, B>(s: Seq<A>, f: spec_fn(A) -> Option<B>, k: int, x: B)
    requires
        0 <= k < s.len(),
        f(s[k]) == Some(x),
    ensures
        s.filter_map(f).contains(x),
    decreases s.len(),
{
    let rest = s.drop_last();
    if k == s.len() - 1 {
        assert(s.filter_map(f) == rest.filter_map(f) + seq![x]);
        assert(s.filter_map(f)[rest.filter_map(f).len() as int] == x);
    } else {
        lemma_filter_map_has(rest, f, k, x);
        let w = choose|w: int| 0 <= w < rest.filter_map(f).len() && rest.filter_map(f)[w] == x;
        match f(s.last()) {
            Some(y) => {
                assert(s.filter_map(f) == rest.filter_map(f) + seq![y]);
                assert(s.filter_map(f)[w] == x);
            },
            None => {},
        }
    }
}

proof fn lemma_count_label_prefix(s: Seq<i32>, l: int, m: int)
    requires
        0 <= m <= s.len(),
    ensures
        count_label(s.take(m), l) <= count_label(s, l),
    decreases s.len() - m,
{
    if m < s.len() {
        lemma_count_label_step(s, m, l);
        lemma_count_label_prefix(s, l, m + 1);
    } else {
        assert(s.take(m) =~= s);
    }
}

/// Every number below the count of label `l` is the new number of some
/// node labelled `l`.
proof fn lemma_kept_onto(s: Seq<i32>, l: int, j: int)
    requires
        0 <= j < count_label(s, l),
    ensures
        exists|i: int| 0 <= i < s.len() && s[i] == l && #[trigger] kept_before(s, l, i) == j,
    decreases s.len(),
{
    let r = s.drop_last();
    let n = s.len() - 1;
    assert(s.take(n) =~= r);
    if j < count_label(r, l) {
        lemma_kept_onto(r, l, j);
        let i = choose|i: int| 0 <= i < r.len() && r[i] == l && #[trigger] kept_before(r, l, i) == j;
        assert(s.take(i) =~= r.take(i));
        assert(kept_before(s, l, i) == j);
    } else {
        assert(kept_before(s, l, n) == j);
    }
}

/// Along a walk from a node labelled `l`, on a graph whose edges keep
/// labels, every node is labelled `l`.
proof fn lemma_walk_keeps_label<D>(adj: Seq<Vec<Edge<D>>>, comp: Seq<i32>, p: Seq<int>, l: int, t: int)
    requires
        is_walk(adj, p),
        comp.len() == adj.len(),
        comp[p[0]] == l,
        forall|u: int, k: int| 0 <= u < adj.len() && 0 <= k < adj[u]@.len() ==> comp[(#[trigger] adj[u]@[k]).to as int] == comp[u],
        0 <= t < p.len(),
    ensures
        comp[p[t]] == l,
    decreases t,
{
    if t > 0 {
        lemma_walk_keeps_label(adj, comp, p, l, t - 1);
        assert(step_ok(adj, p, t - 1));
        let k = choose|k: int| 0 <= k < adj[p[t - 1]]@.len() && (#[trigger] adj[p[t - 1]]@[k]).to == p[t];
        assert(comp[adj[p[t - 1]]@[k].to as int] == comp[p[t - 1]]);
    }
}

/// On a graph stored both ways, labelled as `label_components` labels it,
/// the graph that `prune_to_component` keeps for a label is connected:
/// every kept node is reached from kept node 0.
pub proof fn lemma_pruned_component_is_connected<D>(
    adj: Seq<Vec<Edge<D>>>,
    comp: Seq<i32>,
    count: int,
    keep: i32,
    pruned: Seq<Vec<Edge<D>>>,
)
    requires
        edges_in_range(adj),
        adj.len() <= i32::MAX,
        symmetric(adj),
        is_component_labelling(adj, comp, count),
        forall|u: int, v: int|
            0 <= u < adj.len() && 0 <= v < adj.len() && comp[u] == comp[v] && #[trigger] is_lowest(comp, u) ==> #[trigger] reaches(
                adj,
                u,
                v,
            ),
        pruned.len() == count_label(comp, keep as int),
        forall|i: int| 0 <= i < adj.len() && comp[i] == keep ==> (#[trigger] pruned[kept_before(comp, keep as int, i) as int])@
            == adj[i]@.filter_map(|e: Edge<D>| kept_edge(comp, keep as int, e)),
    ensures
        forall|j: int| 0 <= j < pruned.len() ==> #[trigger] reaches(pruned, 0, j),
{
    let l = keep as int;
    assert forall|u: int, k: int| 0 <= u < adj.len() && 0 <= k < adj[u]@.len() implies comp[(#[trigger] adj[u]@[k]).to as int]
        == comp[u] by {
        let t = adj[u]@[k].to as int;
        assert(has_edge(adj, t, u));
        let k2 = choose|k2: int| 0 <= k2 < adj[t]@.len() && (#[trigger] adj[t]@[k2]).to == u;
        assert(comp[adj[t]@[k2].to as int] <= comp[t]);
    }
    assert forall|i: int| 0 <= i < adj.len() && comp[i] == keep implies #[trigger] kept_before(comp, l, i) < pruned.len() by {
        lemma_count_label_step(comp, i, l);
        lemma_count_label_prefix(comp, l, i + 1);
    }
    assert forall|j: int| 0 <= j < pruned.len() implies #[trigger] reaches(pruned, 0, j) by {
        lemma_kept_onto(comp, l, 0);
        let r0 = choose|i: int| 0 <= i < comp.len() && comp[i] == l && #[trigger] kept_before(comp, l, i) == 0;
        assert(is_lowest(comp, r0)) by {
            assert forall|w: int| 0 <= w < r0 implies #[trigger] comp[w] != comp[r0] by {
                if comp[w] == comp[r0] {
                    lemma_count_label_step(comp, w, l);
                    lemma_count_label_prefix(comp.take(r0), l, w + 1);
                    assert(comp.take(r0).take(w + 1) =~= comp.take(w + 1));
                }
            }
        }
        lemma_kept_onto(comp, l, j);
        let v = choose|i: int| 0 <= i < comp.len() && comp[i] == l && #[trigger] kept_before(comp, l, i) == j;
        assert(reaches(adj, r0, v));
        let p = choose|p: Seq<int>| #[trigger] is_walk(adj, p) && p[0] == r0 && p.last() == v;
        assert forall|t: int| 0 <= t < p.len() implies #[trigger] comp[p[t]] == l by {
            lemma_walk_keeps_label(adj, comp, p, l, t);
        }
        let q = Seq::new(p.len(), |t: int| kept_before(comp, l, p[t]) as int);
        assert forall|t: int| 0 <= t < q.len() implies 0 <= #[trigger] q[t] < pruned.len() by {
            assert(comp[p[t]] == l);
            assert(0 <= p[t] < adj.len());
        }
        assert forall|t: int| 0 <= t < q.len() - 1 implies #[trigger] step_ok(pruned, q, t) by {
            assert(step_ok(adj, p, t));
            let a = p[t];
            let b = p[t + 1];
            let k = choose|k: int| 0 <= k < adj[a]@.len() && (#[trigger] adj[a]@[k]).to == b;
            assert(comp[a] == l && comp[b] == l);
            let e = adj[a]@[k];
            let x = Edge { to: kept_before(comp, l, b) as u32, dist: e.dist };
            assert(kept_edge(comp, l, e) == Some(x));
            let f = |e: Edge<D>| kept_edge(comp, keep as int, e);
            lemma_filter_map_has(adj[a]@, f, k, x);
            assert(pruned[q[t]]@ == adj[a]@.filter_map(f));
            let w = choose|w: int| 0 <= w < pruned[q[t]]@.len() && pruned[q[t]]@[w] == x;
            assert(kept_before(comp, l, b) < pruned.len());
            lemma_count_label_bound(comp, l);
            assert(kept_before(comp, l, b) < 0x1_0000_0000);
            assert(x.to == kept_before(comp, l, b));
            assert(pruned[q[t]]@[w].to == q[t + 1]);
            assert(has_edge(pruned, q[t], q[t + 1]));
        }
        assert(is_walk(pruned, q));
        assert(q[0] == 0 && q.last() == j);
    }
}

} // verus!
