//! Tile counts of the subdivided icosahedron.

use vstd::prelude::*;
use vstd::arithmetic::power::pow;
use std::collections::HashMap;
use arrayvec::ArrayVec;

verus! {

/// Index of a tile of the globe.
pub type TileId = u32;

/// Subdivision level of the globe the data pipeline bakes.
pub const DEFAULT_SUBDIVISIONS: u32 = 6;

/// Tiles of an icosahedron subdivided `n` times: `10 * 4^n + 2`.
pub open spec fn tile_count_spec(n: nat) -> int {
    10 * pow(4, n) + 2
}

/// Expected tile count for a subdivision level: `10 * 4^n + 2`.
pub fn expected_tile_count(subdivisions: u32) -> (r: usize)
    requires
        tile_count_spec(subdivisions as nat) <= usize::MAX,
    ensures
        r == tile_count_spec(subdivisions as nat),
{
    let mut p: usize = 1;
    let mut i: u32 = 0;
    proof {
        vstd::arithmetic::power::lemma_pow0(4);
    }
    while i < subdivisions
        invariant
            i <= subdivisions,
            p == pow(4, i as nat),
            tile_count_spec(subdivisions as nat) <= usize::MAX,
        decreases subdivisions - i,
    {
        proof {
            vstd::arithmetic::power::lemma_pow_adds(4, (i + 1) as nat, (subdivisions - i - 1) as nat);
            vstd::arithmetic::power::lemma_pow_positive(4, (subdivisions - i - 1) as nat);
            vstd::arithmetic::power::lemma_pow1(4);
            vstd::arithmetic::power::lemma_pow_adds(4, i as nat, 1);
            assert(pow(4, (i + 1) as nat) <= pow(4, subdivisions as nat)) by (nonlinear_arith)
                requires
                    pow(4, subdivisions as nat) == pow(4, (i + 1) as nat) * pow(4, (subdivisions - i - 1) as nat),
                    pow(4, (subdivisions - i - 1) as nat) > 0,
                    pow(4, (i + 1) as nat) >= 0;
        }
        p = p * 4;
        i = i + 1;
    }
    10 * p + 2
}

// ---------------------------------------------------------------------------
// Subdivision topology

broadcast use vstd::std_specs::hash::group_hash_axioms;

/// An edge `{x, y}` with its lower endpoint first.
pub open spec fn sorted_pair(x: u32, y: u32) -> (u32, u32) {
    if x < y { (x, y) } else { (y, x) }
}

/// Edge `k` of a face list: edges `(a, b)`, `(b, c)`, `(c, a)` of face
/// `k / 3`, lower endpoint first.
pub open spec fn face_edge(faces: Seq<[u32; 3]>, k: int) -> (u32, u32) {
    let f = faces[k / 3];
    if k % 3 == 0 {
        sorted_pair(f[0], f[1])
    } else if k % 3 == 1 {
        sorted_pair(f[1], f[2])
    } else {
        sorted_pair(f[2], f[0])
    }
}

/// The first `k` edges of a face list, in face order.
pub open spec fn round_edges(faces: Seq<[u32; 3]>, k: nat) -> Seq<(u32, u32)> {
    Seq::new(k, |i: int| face_edge(faces, i))
}

/// The distinct elements of `s`, in order of first occurrence.
pub open spec fn first_seen(s: Seq<(u32, u32)>) -> Seq<(u32, u32)>
    decreases s.len(),
{
    if s.len() == 0 {
        Seq::empty()
    } else {
        let p = first_seen(s.drop_last());
        if p.contains(s.last()) { p } else { p.push(s.last()) }
    }
}

/// No element occurs twice.
pub open spec fn distinct(s: Seq<(u32, u32)>) -> bool {
    forall|i: int, j: int| 0 <= i < j < s.len() ==> s[i] != s[j]
}

/// Vertex created for the midpoint of edge `{x, y}`: `n` plus the
/// position of the edge among the round's new-vertex parents.
pub open spec fn mid_index(parents: Seq<(u32, u32)>, n: int, x: u32, y: u32) -> int {
    n + parents.index_of(sorted_pair(x, y))
}

/// The four faces a face splits into: three corner faces and the centre.
pub open spec fn split_face(parents: Seq<(u32, u32)>, n: int, f: [u32; 3]) -> Seq<[u32; 3]> {
    let ab = mid_index(parents, n, f[0], f[1]) as u32;
    let bc = mid_index(parents, n, f[1], f[2]) as u32;
    let ca = mid_index(parents, n, f[2], f[0]) as u32;
    seq![[f[0], ab, ca], [ab, f[1], bc], [ca, bc, f[2]], [ab, bc, ca]]
}

/// Every face of the list split in four, in face order.
pub open spec fn split_all(parents: Seq<(u32, u32)>, n: int, faces: Seq<[u32; 3]>) -> Seq<[u32; 3]> {
    Seq::new(4 * faces.len(), |k: int| split_face(parents, n, faces[k / 4])[k % 4])
}

/// Cache key of an edge.
pub open spec fn edge_key(p: (u32, u32)) -> u64 {
    (p.0 as int * 0x1_0000_0000 + p.1 as int) as u64
}

proof fn lemma_edge_key_injective(p: (u32, u32), q: (u32, u32))
    requires
        edge_key(p) == edge_key(q),
    ensures
        p == q,
{
    let a = p.0 as int;
    let b = p.1 as int;
    let c = q.0 as int;
    let d = q.1 as int;
    assert(a * 0x1_0000_0000 + b == c * 0x1_0000_0000 + d);
    assert(a == c) by (nonlinear_arith)
        requires a * 0x1_0000_0000 + b == c * 0x1_0000_0000 + d, 0 <= b < 0x1_0000_0000, 0 <= d < 0x1_0000_0000, a >= 0, c >= 0;
}

proof fn lemma_first_seen_distinct(s: Seq<(u32, u32)>)
    ensures
        distinct(first_seen(s)),
        first_seen(s).len() <= s.len(),
        forall|x: (u32, u32)| first_seen(s).contains(x) <==> s.contains(x),
    decreases s.len(),
{
    if s.len() > 0 {
        lemma_first_seen_distinct(s.drop_last());
        let p = first_seen(s.drop_last());
        let fs = first_seen(s);
        let d = s.drop_last();
        assert forall|x: (u32, u32)| fs.contains(x) <==> s.contains(x) by {
            if s.contains(x) {
                if x == s.last() {
                    if p.contains(x) {
                        let i = choose|i: int| 0 <= i < p.len() && p[i] == x;
                        assert(fs[i] == x);
                    } else {
                        assert(fs[p.len() as int] == x);
                    }
                } else {
                    let i = choose|i: int| 0 <= i < s.len() && s[i] == x;
                    assert(i < s.len() - 1);
                    assert(d[i] == x);
                    assert(d.contains(x));
                    assert(p.contains(x));
                    let j = choose|j: int| 0 <= j < p.len() && p[j] == x;
                    assert(fs[j] == x);
                }
            }
            if fs.contains(x) {
                let i = choose|i: int| 0 <= i < fs.len() && fs[i] == x;
                if i < p.len() {
                    assert(p[i] == x);
                    assert(p.contains(x));
                    assert(d.contains(x));
                    let j = choose|j: int| 0 <= j < d.len() && d[j] == x;
                    assert(s[j] == x);
                } else {
                    assert(x == s.last());
                    assert(s[s.len() - 1] == x);
                }
            }
        }
    }
}

proof fn lemma_index_of_distinct(s: Seq<(u32, u32)>, i: int)
    requires
        distinct(s),
        0 <= i < s.len(),
    ensures
        s.index_of(s[i]) == i,
{
    let j = s.index_of(s[i]);
    assert(s.contains(s[i]));
    if j != i {
        if j < i {
            assert(s[j] != s[i]);
        } else {
            assert(s[i] != s[j]);
        }
    }
}

/// The midpoint cache maps the key of each round parent to its vertex, and
/// holds nothing else.
pub open spec fn cache_matches(cache: Map<u64, u32>, parents: Seq<(u32, u32)>, n: int) -> bool {
    &&& forall|k: int| 0 <= k < parents.len() ==> #[trigger] cache.contains_key(edge_key(parents[k])) && cache[edge_key(parents[k])] == n + k
    &&& forall|key: u64| #[trigger] cache.contains_key(key) ==> exists|k: int| 0 <= k < parents.len() && edge_key(parents[k]) == key
}

/// The vertex for the midpoint of `{x, y}`: the one already made, or a
/// new one with the edge appended to the round's parents.
fn get_mid(cache: &mut HashMap<u64, u32>, parents: &mut Vec<(u32, u32)>, n: u32, x: u32, y: u32) -> (m: u32)
    requires
        cache_matches(old(cache)@, old(parents)@, n as int),
        distinct(old(parents)@),
        n + old(parents)@.len() < u32::MAX,
    ensures
        final(parents)@ == (if old(parents)@.contains(sorted_pair(x, y)) { old(parents)@ } else { old(parents)@.push(sorted_pair(x, y)) }),
        distinct(final(parents)@),
        cache_matches(final(cache)@, final(parents)@, n as int),
        m == mid_index(final(parents)@, n as int, x, y),
        final(parents)@.contains(sorted_pair(x, y)),
{
    let lo: u32 = if x < y { x } else { y };
    let hi: u32 = if x < y { y } else { x };
    let ghost sp = sorted_pair(x, y);
    assert((lo, hi) == sp);
    let key: u64 = lo as u64 * 0x1_0000_0000 + hi as u64;
    assert(key == edge_key(sp));
    match cache.get(&key) {
        Some(id) => {
            let id = *id;
            proof {
                let k = choose|k: int| 0 <= k < parents@.len() && edge_key(parents@[k]) == key;
                lemma_edge_key_injective(parents@[k], sp);
                assert(parents@[k] == sp);
                lemma_index_of_distinct(parents@, k);
            }
            id
        },
        None => {
            proof {
                if parents@.contains(sp) {
                    let k = choose|k: int| 0 <= k < parents@.len() && parents@[k] == sp;
                    assert(cache@.contains_key(edge_key(parents@[k])));
                }
            }
            let id: u32 = n + parents.len() as u32;
            let ghost before = parents@;
            let ghost cache_before = cache@;
            parents.push((lo, hi));
            cache.insert(key, id);
            proof {
                assert forall|i: int, j: int| 0 <= i < j < parents@.len() implies parents@[i] != parents@[j] by {
                    if j == before.len() {
                        assert(before[i] != sp);
                    }
                }
                assert forall|k: int| 0 <= k < parents@.len() implies #[trigger] cache@.contains_key(edge_key(parents@[k]))
                    && cache@[edge_key(parents@[k])] == n + k by {
                    if k < before.len() {
                        assert(parents@[k] == before[k]);
                        if edge_key(before[k]) == key {
                            lemma_edge_key_injective(before[k], sp);
                        }
                    }
                }
                assert forall|kk: u64| #[trigger] cache@.contains_key(kk) implies exists|k: int| 0 <= k < parents@.len() && edge_key(parents@[k]) == kk by {
                    if kk != key {
                        assert(cache_before.contains_key(kk));
                        let k = choose|k: int| 0 <= k < before.len() && edge_key(before[k]) == kk;
                        assert(parents@[k] == before[k]);
                    } else {
                        assert(parents@[before.len() as int] == sp);
                    }
                }
                lemma_index_of_distinct(parents@, before.len() as int);
            }
            id
        },
    }
}

proof fn lemma_index_stable(p: Seq<(u32, u32)>, q: Seq<(u32, u32)>, x: (u32, u32))
    requires
        p.len() <= q.len(),
        forall|i: int| 0 <= i < p.len() ==> p[i] == q[i],
        distinct(q),
        p.contains(x),
    ensures
        q.index_of(x) == p.index_of(x),
        0 <= p.index_of(x) < p.len(),
{
    let i = choose|i: int| 0 <= i < p.len() && p[i] == x;
    assert(distinct(p));
    lemma_index_of_distinct(p, i);
    lemma_index_of_distinct(q, i);
}

proof fn lemma_round_step(faces: Seq<[u32; 3]>, k: nat)
    requires
        k < 3 * faces.len(),
    ensures
        first_seen(round_edges(faces, k + 1)) == (if first_seen(round_edges(faces, k)).contains(face_edge(faces, k as int)) {
            first_seen(round_edges(faces, k))
        } else {
            first_seen(round_edges(faces, k)).push(face_edge(faces, k as int))
        }),
{
    assert(round_edges(faces, k + 1).drop_last() =~= round_edges(faces, k));
}

/// One subdivision round over `faces` whose vertices number `n`: each
/// edge gets one midpoint vertex, numbered from `n` in order of first
/// occurrence (faces in order; edges ab, bc, ca), and each face splits in
/// four. Returns the new vertices' parent edges and the new faces.
pub fn subdivide_round(n: u32, faces: &Vec<[u32; 3]>) -> (r: (Vec<(u32, u32)>, Vec<[u32; 3]>))
    requires
        n + 3 * faces@.len() < u32::MAX,
    ensures
        r.0@ == first_seen(round_edges(faces@, 3 * faces@.len())),
        r.0@.len() <= 3 * faces@.len(),
        r.1@ == split_all(r.0@, n as int, faces@),
{
    let mut cache: HashMap<u64, u32> = HashMap::new();
    let mut parents: Vec<(u32, u32)> = Vec::new();
    let mut next: Vec<[u32; 3]> = Vec::new();
    let mut fi: usize = 0;
    proof {
        assert(round_edges(faces@, 0) =~= Seq::<(u32, u32)>::empty());
    }
    while fi < faces.len()
        invariant
            n + 3 * faces@.len() < u32::MAX,
            fi <= faces@.len(),
            parents@ == first_seen(round_edges(faces@, 3 * fi as nat)),
            parents@.len() <= 3 * fi,
            distinct(parents@),
            cache_matches(cache@, parents@, n as int),
            next@.len() == 4 * fi,
            forall|k: int| 0 <= k < 4 * fi ==> #[trigger] next@[k] == split_face(parents@, n as int, faces@[k / 4])[k % 4],
        decreases faces@.len() - fi,
    {
        let f = faces[fi];
        let ghost p0 = parents@;
        let ghost k0 = 3 * fi as nat;
        proof {
            lemma_round_step(faces@, k0);
            assert(face_edge(faces@, k0 as int) == sorted_pair(f[0], f[1]));
        }
        let ab = get_mid(&mut cache, &mut parents, n, f[0], f[1]);
        let ghost p1 = parents@;
        proof {
            lemma_round_step(faces@, (k0 + 1) as nat);
            assert(face_edge(faces@, (k0 + 1) as int) == sorted_pair(f[1], f[2]));
        }
        let bc = get_mid(&mut cache, &mut parents, n, f[1], f[2]);
        let ghost p2 = parents@;
        proof {
            lemma_round_step(faces@, (k0 + 2) as nat);
            assert(face_edge(faces@, (k0 + 2) as int) == sorted_pair(f[2], f[0]));
        }
        let ca = get_mid(&mut cache, &mut parents, n, f[2], f[0]);
        let ghost p3 = parents@;
        proof {
            lemma_index_stable(p1, p3, sorted_pair(f[0], f[1]));
            lemma_index_stable(p2, p3, sorted_pair(f[1], f[2]));
            assert(ab as int == mid_index(p3, n as int, f[0], f[1]));
            assert(bc as int == mid_index(p3, n as int, f[1], f[2]));
            assert(ca as int == mid_index(p3, n as int, f[2], f[0]));
        }
        let ghost next0 = next@;
        next.push([f[0], ab, ca]);
        next.push([ab, f[1], bc]);
        next.push([ca, bc, f[2]]);
        next.push([ab, bc, ca]);
        proof {
            assert forall|k: int| 0 <= k < 4 * (fi + 1) implies #[trigger] next@[k] == split_face(p3, n as int, faces@[k / 4])[k % 4] by {
                if k < 4 * fi {
                    let g = k / 4;
                    let fg = faces@[g];
                    assert(next@[k] == next0[k]);
                    assert(next0[k] == split_face(p0, n as int, fg)[k % 4]);
                    // the edges of an earlier face are already parents
                    assert(round_edges(faces@, k0)[3 * g] == face_edge(faces@, 3 * g));
                    assert(round_edges(faces@, k0)[3 * g + 1] == face_edge(faces@, 3 * g + 1));
                    assert(round_edges(faces@, k0)[3 * g + 2] == face_edge(faces@, 3 * g + 2));
                    lemma_first_seen_distinct(round_edges(faces@, k0));
                    assert(face_edge(faces@, 3 * g) == sorted_pair(fg[0], fg[1]));
                    assert(face_edge(faces@, 3 * g + 1) == sorted_pair(fg[1], fg[2]));
                    assert(face_edge(faces@, 3 * g + 2) == sorted_pair(fg[2], fg[0]));
                    assert(round_edges(faces@, k0).contains(sorted_pair(fg[0], fg[1])));
                    assert(round_edges(faces@, k0).contains(sorted_pair(fg[1], fg[2])));
                    assert(round_edges(faces@, k0).contains(sorted_pair(fg[2], fg[0])));
                    lemma_index_stable(p0, p3, sorted_pair(fg[0], fg[1]));
                    lemma_index_stable(p0, p3, sorted_pair(fg[1], fg[2]));
                    lemma_index_stable(p0, p3, sorted_pair(fg[2], fg[0]));
                    assert(split_face(p0, n as int, fg) == split_face(p3, n as int, fg));
                } else {
                    assert(k / 4 == fi);
                }
            }
        }
        fi = fi + 1;
    }
    proof {
        assert(next@ =~= split_all(parents@, n as int, faces@));
    }
    (parents, next)
}

/// Every face names three distinct vertices below `n`.
pub open spec fn faces_distinct(faces: Seq<[u32; 3]>, n: int) -> bool {
    forall|i: int| 0 <= i < faces.len() ==> {
        let f = #[trigger] faces[i];
        &&& f[0] < n && f[1] < n && f[2] < n
        &&& f[0] != f[1] && f[1] != f[2] && f[2] != f[0]
    }
}

/// Every parent edge joins two distinct vertices made before the child:
/// vertex `n0 + k` has parents `ps[k]` with `ps[k].0 < ps[k].1 < n0 + k`.
pub open spec fn parents_earlier(ps: Seq<(u32, u32)>, n0: int) -> bool {
    forall|k: int| 0 <= k < ps.len() ==> (#[trigger] ps[k]).0 < ps[k].1 && ps[k].1 < n0 + k
}

proof fn lemma_edges_of_faces(faces: Seq<[u32; 3]>, n: int, e: (u32, u32))
    requires
        faces_distinct(faces, n),
        round_edges(faces, 3 * faces.len()).contains(e),
    ensures
        e.0 < e.1 < n,
{
    let es = round_edges(faces, 3 * faces.len());
    let i = choose|i: int| 0 <= i < es.len() && es[i] == e;
    assert(es[i] == face_edge(faces, i));
    let f = faces[i / 3];
    assert(0 <= i / 3 < faces.len());
}

proof fn lemma_split_all_ok(faces: Seq<[u32; 3]>, n: int, p: Seq<(u32, u32)>)
    requires
        faces_distinct(faces, n),
        p == first_seen(round_edges(faces, 3 * faces.len())),
        n + 3 * faces.len() < u32::MAX,
        n >= 0,
    ensures
        faces_distinct(split_all(p, n, faces), n + p.len()),
        forall|k: int| 0 <= k < p.len() ==> (#[trigger] p[k]).0 < p[k].1 < n,
{
    let es = round_edges(faces, 3 * faces.len());
    lemma_first_seen_distinct(es);
    assert forall|k: int| 0 <= k < p.len() implies (#[trigger] p[k]).0 < p[k].1 < n by {
        assert(p.contains(p[k]));
        lemma_edges_of_faces(faces, n, p[k]);
    }
    let sp = split_all(p, n, faces);
    assert forall|i: int| 0 <= i < sp.len() implies {
        let g = #[trigger] sp[i];
        &&& g[0] < n + p.len() && g[1] < n + p.len() && g[2] < n + p.len()
        &&& g[0] != g[1] && g[1] != g[2] && g[2] != g[0]
    } by {
        let fi = i / 4;
        let f = faces[fi];
        assert(0 <= fi < faces.len());
        assert(es[3 * fi] == sorted_pair(f[0], f[1]));
        assert(es[3 * fi + 1] == sorted_pair(f[1], f[2]));
        assert(es[3 * fi + 2] == sorted_pair(f[2], f[0]));
        assert(es.contains(sorted_pair(f[0], f[1])));
        assert(es.contains(sorted_pair(f[1], f[2])));
        assert(es.contains(sorted_pair(f[2], f[0])));
        assert(p.contains(sorted_pair(f[0], f[1])));
        assert(p.contains(sorted_pair(f[1], f[2])));
        assert(p.contains(sorted_pair(f[2], f[0])));
        let iab = p.index_of(sorted_pair(f[0], f[1]));
        let ibc = p.index_of(sorted_pair(f[1], f[2]));
        let ica = p.index_of(sorted_pair(f[2], f[0]));
        assert(0 <= iab < p.len() && p[iab] == sorted_pair(f[0], f[1]));
        assert(0 <= ibc < p.len() && p[ibc] == sorted_pair(f[1], f[2]));
        assert(0 <= ica < p.len() && p[ica] == sorted_pair(f[2], f[0]));
        assert(sorted_pair(f[0], f[1]) != sorted_pair(f[1], f[2]));
        assert(sorted_pair(f[1], f[2]) != sorted_pair(f[2], f[0]));
        assert(sorted_pair(f[2], f[0]) != sorted_pair(f[0], f[1]));
        assert(p.len() <= es.len());
        assert(sp[i] == split_face(p, n, f)[i % 4]);
    }
}

/// The twenty faces of the base icosahedron, wound counter-clockwise as
/// seen from outside; its twelve vertices are 0 to 11.
pub open spec fn icosa_faces_spec() -> Seq<[u32; 3]> {
    seq![[0u32, 11u32, 5u32], [0u32, 5u32, 1u32], [0u32, 1u32, 7u32], [0u32, 7u32, 10u32], [0u32, 10u32, 11u32], [1u32, 5u32, 9u32], [5u32, 11u32, 4u32], [11u32, 10u32, 2u32], [10u32, 7u32, 6u32], [7u32, 1u32, 8u32], [3u32, 9u32, 4u32], [3u32, 4u32, 2u32], [3u32, 2u32, 6u32], [3u32, 6u32, 8u32], [3u32, 8u32, 9u32], [4u32, 9u32, 5u32], [2u32, 4u32, 11u32], [6u32, 2u32, 10u32], [8u32, 6u32, 7u32], [9u32, 8u32, 1u32]]
}

/// The twenty faces of the base icosahedron.
pub fn icosa_faces() -> (v: Vec<[u32; 3]>)
    ensures
        v@ == icosa_faces_spec(),
{
    let v: Vec<[u32; 3]> = vec![[0, 11, 5], [0, 5, 1], [0, 1, 7], [0, 7, 10], [0, 10, 11], [1, 5, 9], [5, 11, 4], [11, 10, 2], [10, 7, 6], [7, 1, 8], [3, 9, 4], [3, 4, 2], [3, 2, 6], [3, 6, 8], [3, 8, 9], [4, 9, 5], [2, 4, 11], [6, 2, 10], [8, 6, 7], [9, 8, 1]];
    assert(v@ =~= icosa_faces_spec());
    v
}

/// After `r` rounds: the vertex count, the parent edge of every vertex
/// made so far (vertex `12 + k` has parents `k`), and the faces.
pub open spec fn topology(r: nat) -> (int, Seq<(u32, u32)>, Seq<[u32; 3]>)
    decreases r,
{
    if r == 0 {
        (12, Seq::empty(), icosa_faces_spec())
    } else {
        let prev = topology((r - 1) as nat);
        let p = first_seen(round_edges(prev.2, 3 * prev.2.len()));
        (prev.0 + p.len(), prev.1 + p, split_all(p, prev.0, prev.2))
    }
}

/// The face topology of an icosahedron subdivided `subdivisions` times:
/// every vertex beyond the first twelve is the midpoint of the two
/// vertices in `parents`, so positions follow by averaging in order.
pub struct GeoTopology {
    pub subdivisions: u32,
    pub vertex_count: u32,
    pub parents: Vec<(u32, u32)>,
    pub faces: Vec<[u32; 3]>,
}

/// Subdivide the icosahedron `subdivisions` times, each round splitting
/// every face in four.
pub fn build_topology(subdivisions: u32) -> (t: GeoTopology)
    requires
        20 * pow(4, subdivisions as nat) + 12 <= u32::MAX,
    ensures
        t.subdivisions == subdivisions,
        t.vertex_count == topology(subdivisions as nat).0,
        t.parents@ == topology(subdivisions as nat).1,
        t.faces@ == topology(subdivisions as nat).2,
        t.faces@.len() == 20 * pow(4, subdivisions as nat),
        t.vertex_count == 12 + t.parents@.len(),
        faces_distinct(t.faces@, t.vertex_count as int),
        parents_earlier(t.parents@, 12),
{
    let mut n: u32 = 12;
    let mut parents: Vec<(u32, u32)> = Vec::new();
    let mut faces = icosa_faces();
    let mut r: u32 = 0;
    proof {
        vstd::arithmetic::power::lemma_pow0(4);
        assert(faces_distinct(faces@, 12));
    }
    while r < subdivisions
        invariant
            r <= subdivisions,
            20 * pow(4, subdivisions as nat) + 12 <= u32::MAX,
            n == topology(r as nat).0,
            parents@ == topology(r as nat).1,
            faces@ == topology(r as nat).2,
            faces@.len() == 20 * pow(4, r as nat),
            n <= 20 * pow(4, r as nat) - 8,
            n == 12 + parents@.len(),
            faces_distinct(faces@, n as int),
            parents_earlier(parents@, 12),
        decreases subdivisions - r,
    {
        proof {
            vstd::arithmetic::power::lemma_pow_increases(4, (r + 1) as nat, subdivisions as nat);
            vstd::arithmetic::power::lemma_pow_adds(4, r as nat, 1);
            vstd::arithmetic::power::lemma_pow1(4);
            assert(pow(4, (r + 1) as nat) == 4 * pow(4, r as nat));
        }
        let (p, next) = subdivide_round(n, &faces);
        proof {
            lemma_split_all_ok(faces@, n as int, p@);
        }
        let ghost pf = parents@;
        let ghost pv = p@;
        let added = p.len();
        let mut p_mut = p;
        parents.append(&mut p_mut);
        proof {
            assert(parents@ =~= pf + pv);
            assert forall|k: int| 0 <= k < parents@.len() implies (#[trigger] parents@[k]).0 < parents@[k].1 && parents@[k].1 < 12 + k by {
                if k >= pf.len() {
                    assert(parents@[k] == pv[k - pf.len()]);
                } else {
                    assert(parents@[k] == pf[k]);
                }
            }
        }
        n = n + added as u32;
        faces = next;
        r = r + 1;
    }
    GeoTopology { subdivisions, vertex_count: n, parents, faces }
}

// ---------------------------------------------------------------------------
// Ordered adjacency

#[verifier::external_type_specification]
#[verifier::external_body]
#[verifier::reject_recursive_types(T)]
pub struct ExArrayVec<T, const CAP: usize>(ArrayVec<T, CAP>);

/// What a neighbour ring holds, in order.
pub uninterp spec fn ring_items(r: ArrayVec<u32, 6>) -> Seq<u32>;

/// `ArrayVec::new`: an empty ring.
#[verifier::external_body]
fn ring_new() -> (r: ArrayVec<u32, 6>)
    ensures
        ring_items(r) == Seq::<u32>::empty(),
{
    ArrayVec::new()
}

/// `ArrayVec::push`: appends `v`. It panics on a full ring, so fewer than
/// six items are required.
#[verifier::external_body]
fn ring_push(r: &mut ArrayVec<u32, 6>, v: u32)
    requires
        ring_items(*old(r)).len() < 6,
    ensures
        ring_items(*final(r)) == ring_items(*old(r)).push(v),
{
    r.push(v)
}

/// `ArrayVec::len`: the number of items, at most the capacity six.
#[verifier::external_body]
fn ring_len(r: &ArrayVec<u32, 6>) -> (n: usize)
    ensures
        n == ring_items(*r).len(),
        n <= 6,
{
    r.len()
}

/// Indexing through the ring's slice: item `i`.
#[verifier::external_body]
fn ring_get(r: &ArrayVec<u32, 6>, i: usize) -> (v: u32)
    requires
        i < ring_items(*r).len(),
    ensures
        v == ring_items(*r)[i as int],
{
    r[i]
}

/// Key of the directed pair `(v, u)`.
pub open spec fn dir_key(v: u32, u: u32) -> u64 {
    edge_key((v, u))
}

/// For each counter-clockwise face `(p0, p1, p2)`, going around `p0` from
/// `p1` leads next to `p2` (and cyclically); later faces overwrite.
pub open spec fn next_map(faces: Seq<[u32; 3]>) -> Map<u64, u32>
    decreases faces.len(),
{
    if faces.len() == 0 {
        Map::empty()
    } else {
        let f = faces.last();
        next_map(faces.drop_last()).insert(dir_key(f[0], f[1]), f[2]).insert(dir_key(f[1], f[2]), f[0]).insert(
            dir_key(f[2], f[0]),
            f[1],
        )
    }
}

/// Face `f` has vertex `v`.
pub open spec fn face_has(f: [u32; 3], v: u32) -> bool {
    f[0] == v || f[1] == v || f[2] == v
}

/// The first vertex of `f` other than `v`.
pub open spec fn first_other(f: [u32; 3], v: u32) -> u32 {
    if f[0] != v { f[0] } else if f[1] != v { f[1] } else { f[2] }
}

/// Where `v`'s ring starts: the first other vertex of the first face, among
/// the first `k`, that has `v`.
pub open spec fn start_scan(faces: Seq<[u32; 3]>, k: nat, v: u32) -> Option<u32>
    decreases k,
{
    if k == 0 {
        None
    } else {
        match start_scan(faces, (k - 1) as nat, v) {
            Some(s) => Some(s),
            None => if face_has(faces[k - 1], v) { Some(first_other(faces[k - 1], v)) } else { None },
        }
    }
}

/// The ring around `v` from `cur` until it returns to `start`, within
/// `fuel` items; `None` if a step is missing or the ring is longer.
pub open spec fn ring_walk(nm: Map<u64, u32>, v: u32, start: u32, cur: u32, fuel: nat) -> Option<Seq<u32>>
    decreases fuel,
{
    if fuel == 0 || !nm.contains_key(dir_key(v, cur)) {
        None
    } else {
        let nxt = nm[dir_key(v, cur)];
        if nxt == start {
            Some(seq![cur])
        } else {
            match ring_walk(nm, v, start, nxt, (fuel - 1) as nat) {
                Some(rest) => Some(seq![cur] + rest),
                None => None,
            }
        }
    }
}

/// The rotational ring of neighbours of `v`, at most six long.
pub open spec fn ring_of(faces: Seq<[u32; 3]>, v: u32) -> Option<Seq<u32>> {
    match start_scan(faces, faces.len(), v) {
        None => None,
        Some(s) => ring_walk(next_map(faces), v, s, s, 6),
    }
}

/// Every face names vertices below `n` and at least two distinct ones.
pub open spec fn faces_ok(faces: Seq<[u32; 3]>, n: int) -> bool {
    forall|i: int| 0 <= i < faces.len() ==> {
        let f = #[trigger] faces[i];
        &&& f[0] < n && f[1] < n && f[2] < n
        &&& !(f[0] == f[1] && f[1] == f[2])
    }
}

fn build_next_map(faces: &Vec<[u32; 3]>) -> (m: HashMap<u64, u32>)
    ensures
        m@ == next_map(faces@),
{
    let mut next: HashMap<u64, u32> = HashMap::new();
    let mut i: usize = 0;
    while i < faces.len()
        invariant
            i <= faces@.len(),
            next@ == next_map(faces@.take(i as int)),
        decreases faces@.len() - i,
    {
        let f = faces[i];
        proof {
            assert(faces@.take(i + 1).drop_last() =~= faces@.take(i as int));
        }
        next.insert(f[0] as u64 * 0x1_0000_0000 + f[1] as u64, f[2]);
        next.insert(f[1] as u64 * 0x1_0000_0000 + f[2] as u64, f[0]);
        next.insert(f[2] as u64 * 0x1_0000_0000 + f[0] as u64, f[1]);
        i = i + 1;
    }
    assert(faces@.take(faces@.len() as int) =~= faces@);
    next
}

fn build_starts(faces: &Vec<[u32; 3]>, n: u32) -> (s: Vec<Option<u32>>)
    requires
        faces_ok(faces@, n as int),
    ensures
        s@.len() == n,
        forall|v: int| 0 <= v < n ==> #[trigger] s@[v] == start_scan(faces@, faces@.len(), v as u32),
{
    let mut start: Vec<Option<u32>> = Vec::new();
    let mut v: u32 = 0;
    while v < n
        invariant
            v <= n,
            start@.len() == v,
            forall|w: int| 0 <= w < v ==> start@[w] is None,
        decreases n - v,
    {
        start.push(None);
        v = v + 1;
    }
    let mut i: usize = 0;
    while i < faces.len()
        invariant
            i <= faces@.len(),
            faces_ok(faces@, n as int),
            start@.len() == n,
            forall|w: int| 0 <= w < n ==> #[trigger] start@[w] == start_scan(faces@, i as nat, w as u32),
        decreases faces@.len() - i,
    {
        let f = faces[i];
        assert(faces@[i as int] == f);
        let ghost before = start@;
        let mut j: usize = 0;
        while j < 3
            invariant
                j <= 3,
                i < faces@.len(),
                faces@[i as int] == f,
                f[0] < n && f[1] < n && f[2] < n,
                !(f[0] == f[1] && f[1] == f[2]),
                start@.len() == n,
                before.len() == n,
                forall|w: int| 0 <= w < n ==> #[trigger] before[w] == start_scan(faces@, i as nat, w as u32),
                forall|w: int| 0 <= w < n ==> #[trigger] start@[w] == (if before[w] is None && exists|t: int| 0 <= t < j && f[t] == w {
                    Some(first_other(f, w as u32))
                } else {
                    before[w]
                }),
            decreases 3 - j,
        {
            let w = f[j];
            if start[w as usize].is_none() {
                let o: u32 = if f[0] != w { f[0] } else if f[1] != w { f[1] } else { f[2] };
                start.set(w as usize, Some(o));
            }
            proof {
                assert forall|x: int| 0 <= x < n implies #[trigger] start@[x] == (if before[x] is None && exists|t: int| 0 <= t < j + 1 && f[t] == x {
                    Some(first_other(f, x as u32))
                } else {
                    before[x]
                }) by {
                    if x == w {
                        assert(f[j as int] == x);
                    }
                }
            }
            j = j + 1;
        }
        proof {
            assert forall|w: int| 0 <= w < n implies #[trigger] start@[w] == start_scan(faces@, (i + 1) as nat, w as u32) by {
                if face_has(f, w as u32) {
                    if f[0] == w {
                        assert(f[0int] == w);
                    } else if f[1] == w {
                        assert(f[1int] == w);
                    } else {
                        assert(f[2int] == w);
                    }
                }
            }
        }
        i = i + 1;
    }
    start
}

/// Neighbour rings of a closed triangulation: for each vertex, its
/// neighbours in rotational order (the dual tiling's edges), found by
/// walking "next around vertex" from the first neighbour met. `None` if
/// some vertex lies on no face, its walk breaks off, or its ring would
/// exceed six.
pub fn build_ordered_adjacency(n: u32, faces: &Vec<[u32; 3]>) -> (r: Option<Vec<ArrayVec<u32, 6>>>)
    requires
        faces_ok(faces@, n as int),
    ensures
        r matches Some(rings) ==> rings@.len() == n && forall|v: int| 0 <= v < n ==> ring_of(faces@, v as u32) == Some(
            ring_items(#[trigger] rings@[v]),
        ),
        r is None ==> exists|v: int| 0 <= v < n && #[trigger] ring_of(faces@, v as u32) is None,
{
    let next = build_next_map(faces);
    let start = build_starts(faces, n);
    let mut rings: Vec<ArrayVec<u32, 6>> = Vec::new();
    let mut v: u32 = 0;
    while v < n
        invariant
            v <= n,
            next@ == next_map(faces@),
            start@.len() == n,
            forall|w: int| 0 <= w < n ==> #[trigger] start@[w] == start_scan(faces@, faces@.len(), w as u32),
            rings@.len() == v,
            forall|w: int| 0 <= w < v ==> ring_of(faces@, w as u32) == Some(ring_items(#[trigger] rings@[w])),
        decreases n - v,
    {
        assert(start@[v as int] == start_scan(faces@, faces@.len(), v));
        let s = match start[v as usize] {
            Some(s) => s,
            None => {
                assert(ring_of(faces@, v) is None);
                return None;
            },
        };
        let mut ring = ring_new();
        let mut cur: u32 = s;
        let ghost total = ring_walk(next@, v, s, s, 6);
        assert(ring_of(faces@, v) == total);
        loop
            invariant_except_break
                total == (match ring_walk(next@, v, s, cur, (6 - ring_items(ring).len()) as nat) {
                    Some(rest) => Some(ring_items(ring) + rest),
                    None => None,
                }),
            invariant
                next@ == next_map(faces@),
                ring_items(ring).len() <= 6,
                total == ring_walk(next@, v, s, s, 6),
                ring_of(faces@, v) == total,
                v < n,
            ensures
                total == Some(ring_items(ring)),
            decreases 6 - ring_items(ring).len(),
        {
            if ring_len(&ring) == 6 {
                assert(ring_of(faces@, (v as int) as u32) is None);
                return None;
            }
            let ghost fuel = (6 - ring_items(ring).len()) as nat;
            let ghost before = ring_items(ring);
            ring_push(&mut ring, cur);
            let key: u64 = v as u64 * 0x1_0000_0000 + cur as u64;
            assert(key == dir_key(v, cur));
            match next.get(&key) {
                None => {
                    assert(ring_of(faces@, (v as int) as u32) is None);
                    return None;
                },
                Some(nxt) => {
                    let nxt = *nxt;
                    if nxt == s {
                        assert(ring_items(ring) =~= before + seq![cur]);
                        break;
                    }
                    proof {
                        match ring_walk(next@, v, s, nxt, (fuel - 1) as nat) {
                            Some(rest) => {
                                assert(before + (seq![cur] + rest) =~= ring_items(ring) + rest);
                            },
                            None => {},
                        }
                    }
                    cur = nxt;
                }
            }
        }
        assert(ring_of(faces@, v) == Some(ring_items(ring)));
        rings.push(ring);
        v = v + 1;
    }
    Some(rings)
}

/// First position of `x` in `s`.
pub open spec fn first_pos(s: Seq<u32>, x: u32) -> Option<int> {
    if s.contains(x) {
        Some(choose|i: int| 0 <= i < s.len() && s[i] == x && forall|j: int| 0 <= j < i ==> s[j] != x)
    } else {
        None
    }
}

/// The globe's tile graph: each tile's neighbours in rotational order.
pub struct GeoAdjacency {
    pub neighbors: Vec<ArrayVec<u32, 6>>,
}

impl GeoAdjacency {
    /// The neighbour rings of a subdivided icosahedron, or `None` if its
    /// faces do not close up.
    pub fn of_topology(t: &GeoTopology) -> (r: Option<GeoAdjacency>)
        requires
            faces_distinct(t.faces@, t.vertex_count as int),
        ensures
            r matches Some(a) ==> a.neighbors@.len() == t.vertex_count && forall|v: int| 0 <= v < t.vertex_count ==> ring_of(
                t.faces@,
                v as u32,
            ) == Some(ring_items(#[trigger] a.neighbors@[v])),
            r is None ==> exists|v: int| 0 <= v < t.vertex_count && #[trigger] ring_of(t.faces@, v as u32) is None,
    {
        assert(faces_ok(t.faces@, t.vertex_count as int));
        match build_ordered_adjacency(t.vertex_count, &t.faces) {
            Some(neighbors) => Some(GeoAdjacency { neighbors }),
            None => None,
        }
    }

    /// Number of tiles.
    pub fn tile_count(&self) -> (n: usize)
        ensures
            n == self.neighbors@.len(),
    {
        self.neighbors.len()
    }

    /// Number of neighbours of `tile`.
    pub fn degree(&self, tile: u32) -> (d: usize)
        requires
            (tile as int) < self.neighbors@.len(),
        ensures
            d == ring_items(self.neighbors@[tile as int]).len(),
    {
        ring_len(&self.neighbors[tile as usize])
    }

    /// Neighbour `i` of `tile` in rotational order.
    pub fn neighbor(&self, tile: u32, i: usize) -> (t: u32)
        requires
            (tile as int) < self.neighbors@.len(),
            i < ring_items(self.neighbors@[tile as int]).len(),
        ensures
            t == ring_items(self.neighbors@[tile as int])[i as int],
    {
        ring_get(&self.neighbors[tile as usize], i)
    }

    /// Whether `tile` has five neighbours (one of the icosahedron's corners).
    pub fn is_pentagon(&self, tile: u32) -> (b: bool)
        requires
            (tile as int) < self.neighbors@.len(),
        ensures
            b == (ring_items(self.neighbors@[tile as int]).len() == 5),
    {
        ring_len(&self.neighbors[tile as usize]) == 5
    }

    /// Position in `tile`'s ring of the edge facing `neighbor`, if adjacent.
    pub fn edge_towards(&self, tile: u32, neighbor: u32) -> (e: Option<u8>)
        requires
            (tile as int) < self.neighbors@.len(),
        ensures
            e matches Some(i) ==> first_pos(ring_items(self.neighbors@[tile as int]), neighbor) == Some(i as int),
            e is None ==> first_pos(ring_items(self.neighbors@[tile as int]), neighbor) is None,
    {
        let ring = &self.neighbors[tile as usize];
        let ghost items = ring_items(self.neighbors@[tile as int]);
        assert(items == ring_items(*ring));
        let len = ring_len(ring);
        let mut i: usize = 0;
        while i < len
            invariant
                len == items.len(),
                len <= 6,
                items == ring_items(*ring),
                items == ring_items(self.neighbors@[tile as int]),
                i <= len,
                forall|j: int| 0 <= j < i ==> items[j] != neighbor,
            decreases len - i,
        {
            if ring_get(ring, i) == neighbor {
                assert(items[i as int] == neighbor);
                proof {
                    assert(items.contains(neighbor));
                    let k = choose|k: int| 0 <= k < items.len() && items[k] == neighbor && forall|j: int| 0 <= j < k ==> items[j] != neighbor;
                    if k < i {
                    } else if k > i {
                        assert(items[i as int] == neighbor);
                    }
                    assert(k == i);
                    assert(first_pos(items, neighbor) == Some(i as int));
                }
                let pos: u8 = i as u8;
                assert(pos as int == i as int);
                assert(first_pos(ring_items(self.neighbors@[tile as int]), neighbor) == Some(pos as int));
                return Some(pos);
            }
            i = i + 1;
        }
        proof {
            if items.contains(neighbor) {
                let k = choose|k: int| 0 <= k < items.len() && items[k] == neighbor;
                assert(items[k] != neighbor);
            }
        }
        None
    }
}

} // verus!
