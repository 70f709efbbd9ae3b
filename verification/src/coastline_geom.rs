//! Uniform bucket grids over coastline segments and land triangles.
//!
//! Both grids share one origin and bucket size, so a `(col, row)` key
//! serves both. Each primitive is filed in every bucket of the bucket
//! range its bounding box covers; which range that is comes from the
//! primitive's coordinates and is worked out by the caller. The grids
//! here keep the filing exact: bucket `(c, r)` holds, in input order,
//! exactly the primitives whose range covers it.
use vstd::prelude::*;
use crate::coastline::{lines_view, CoastlineMap, LandMesh, PointBits};

verus! {

/// Inclusive bucket range `(c0, r0, c1, r1)` of a primitive's bounding box.
pub type BucketRange = (u32, u32, u32, u32);

/// One coastline polyline segment: its two endpoints.
#[derive(Clone, Copy, Debug, PartialEq, Eq)]
pub struct CoastEdge {
    pub a: PointBits,
    pub b: PointBits,
}

/// One land triangle: its three corners.
#[derive(Clone, Copy, Debug, PartialEq, Eq)]
pub struct LandTriangle {
    pub v0: PointBits,
    pub v1: PointBits,
    pub v2: PointBits,
}

/// The range lies inside a `cols × rows` grid, corners in order.
pub open spec fn range_ok(rg: BucketRange, cols: int, rows: int) -> bool {
    rg.0 <= rg.2 < cols && rg.1 <= rg.3 < rows
}

/// Bucket `(c, r)` lies in the range.
pub open spec fn covers(rg: BucketRange, c: int, r: int) -> bool {
    rg.0 <= c <= rg.2 && rg.1 <= r <= rg.3
}

/// Every range of the list lies inside the grid.
pub open spec fn ranges_ok(ranges: Seq<BucketRange>, cols: int, rows: int) -> bool {
    forall|i: int| 0 <= i < ranges.len() ==> range_ok(#[trigger] ranges[i], cols, rows)
}

/// The items, in order, whose range (same position in `ranges`) covers
/// bucket `(c, r)`.
pub open spec fn stamped<T>(items: Seq<T>, ranges: Seq<BucketRange>, c: int, r: int) -> Seq<T>
    decreases items.len(),
{
    if items.len() == 0 {
        Seq::empty()
    } else {
        let k = items.len() - 1;
        let prev = stamped(items.drop_last(), ranges, c, r);
        if covers(ranges[k], c, r) {
            prev.push(items[k])
        } else {
            prev
        }
    }
}

/// Contents of bucket `(c, r)` of a row-major grid `cols` wide.
pub open spec fn cell<T>(b: Seq<Vec<T>>, cols: int, c: int, r: int) -> Seq<T> {
    b[r * cols + c]@
}

/// Total number of entries over all buckets.
pub open spec fn total_len<T>(b: Seq<Vec<T>>) -> nat
    decreases b.len(),
{
    if b.len() == 0 {
        0
    } else {
        total_len(b.drop_last()) + b.last()@.len()
    }
}

proof fn lemma_slot(cols: int, rows: int, c: int, r: int)
    requires
        0 <= c < cols,
        0 <= r < rows,
    ensures
        0 <= r * cols + c < cols * rows,
{
    assert(0 <= r * cols + c < cols * rows) by (nonlinear_arith)
        requires 0 <= c < cols, 0 <= r < rows;
}

proof fn lemma_slot_injective(cols: int, c1: int, r1: int, c2: int, r2: int)
    requires
        0 <= c1 < cols,
        0 <= c2 < cols,
        0 <= r1,
        0 <= r2,
        r1 * cols + c1 == r2 * cols + c2,
    ensures
        c1 == c2,
        r1 == r2,
{
    assert(r1 == r2) by (nonlinear_arith)
        requires 0 <= c1 < cols, 0 <= c2 < cols, 0 <= r1, 0 <= r2, r1 * cols + c1 == r2 * cols + c2;
}

/// Number of buckets in a range.
pub open spec fn area(rg: BucketRange) -> int {
    (rg.2 - rg.0 + 1) * (rg.3 - rg.1 + 1)
}

/// Number of bucket entries made by filing one primitive per range.
pub open spec fn filed_count(ranges: Seq<BucketRange>) -> int
    decreases ranges.len(),
{
    if ranges.len() == 0 {
        0
    } else {
        filed_count(ranges.drop_last()) + area(ranges.last())
    }
}

proof fn lemma_total_len_grows<T>(s: Seq<Vec<T>>, i: int, v: Vec<T>)
    requires
        0 <= i < s.len(),
        v@.len() == s[i]@.len() + 1,
    ensures
        total_len(s.update(i, v)) == total_len(s) + 1,
    decreases s.len(),
{
    if i == s.len() - 1 {
        assert(s.update(i, v).drop_last() =~= s.drop_last());
    } else {
        lemma_total_len_grows(s.drop_last(), i, v);
        assert(s.update(i, v).drop_last() =~= s.drop_last().update(i, v));
    }
}

/// Append `item` to the bucket at `idx`.
fn push_into<T: Copy>(b: &mut Vec<Vec<T>>, idx: usize, item: T)
    requires
        idx < old(b)@.len(),
    ensures
        final(b)@ == old(b)@.update(idx as int, final(b)@[idx as int]),
        final(b)@[idx as int]@ == old(b)@[idx as int]@.push(item),
{
    let mut slot: Vec<T> = Vec::new();
    std::mem::swap(&mut slot, &mut b[idx]);
    slot.push(item);
    b.set(idx, slot);
}

/// `cols * rows` empty buckets, then each item filed in every bucket of
/// its range.
fn stamp_all<T: Copy>(cols: u32, rows: u32, items: &[T], ranges: &[BucketRange]) -> (b: Vec<Vec<T>>)
    requires
        cols * rows <= u32::MAX,
        ranges@.len() == items@.len(),
        ranges_ok(ranges@, cols as int, rows as int),
    ensures
        b@.len() == cols * rows,
        forall|c: int, r: int|
            0 <= c < cols && 0 <= r < rows ==> #[trigger] cell(b@, cols as int, c, r) == stamped(items@, ranges@, c, r),
        total_len(b@) == filed_count(ranges@),
{
    let n: u32 = cols * rows;
    let mut b: Vec<Vec<T>> = Vec::new();
    let mut i: u32 = 0;
    while i < n
        invariant
            i <= n,
            b@.len() == i,
            forall|j: int| 0 <= j < i ==> (#[trigger] b@[j])@.len() == 0,
            total_len(b@) == 0,
        decreases n - i,
    {
        let ghost before = b@;
        b.push(Vec::new());
        assert(b@.drop_last() =~= before);
        i = i + 1;
    }
    proof {
        assert forall|c: int, r: int| 0 <= c < cols && 0 <= r < rows implies #[trigger] cell(b@, cols as int, c, r)
            == stamped(items@.take(0), ranges@, c, r) by {
            lemma_slot(cols as int, rows as int, c, r);
        }
    }
    let mut k: usize = 0;
    while k < items.len()
        invariant
            k <= items@.len(),
            ranges@.len() == items@.len(),
            ranges_ok(ranges@, cols as int, rows as int),
            cols * rows <= u32::MAX,
            b@.len() == cols * rows,
            forall|c: int, r: int|
                0 <= c < cols && 0 <= r < rows ==> #[trigger] cell(b@, cols as int, c, r) == stamped(
                    items@.take(k as int),
                    ranges@,
                    c,
                    r,
                ),
            total_len(b@) == filed_count(ranges@.take(k as int)),
        decreases items@.len() - k,
    {
        let rg = ranges[k];
        let item = items[k];
        assert(range_ok(ranges@[k as int], cols as int, rows as int));
        let ghost before = b@;
        let ghost prev = |c: int, r: int| stamped(items@.take(k as int), ranges@, c, r);
        let ghost done = filed_count(ranges@.take(k as int));
        let ghost w = rg.2 - rg.0 + 1;
        let mut r: u32 = rg.1;
        while r <= rg.3
            invariant
                rg == ranges@[k as int],
                range_ok(rg, cols as int, rows as int),
                rg.1 <= r <= rg.3 + 1,
                cols * rows <= u32::MAX,
                b@.len() == cols * rows,
                forall|c2: int, r2: int|
                    0 <= c2 < cols && 0 <= r2 < rows ==> #[trigger] cell(b@, cols as int, c2, r2) == (if covers(rg, c2, r2)
                        && r2 < r { prev(c2, r2).push(item) } else { prev(c2, r2) }),
                w == rg.2 - rg.0 + 1,
                total_len(b@) == done + (r - rg.1) * w,
            decreases rg.3 + 1 - r,
        {
            let mut c: u32 = rg.0;
            while c <= rg.2
                invariant
                    rg == ranges@[k as int],
                    range_ok(rg, cols as int, rows as int),
                    rg.1 <= r <= rg.3,
                    rg.0 <= c <= rg.2 + 1,
                    cols * rows <= u32::MAX,
                    b@.len() == cols * rows,
                    forall|c2: int, r2: int|
                        0 <= c2 < cols && 0 <= r2 < rows ==> #[trigger] cell(b@, cols as int, c2, r2) == (if covers(
                            rg,
                            c2,
                            r2,
                        ) && (r2 < r || (r2 == r && c2 < c)) { prev(c2, r2).push(item) } else { prev(c2, r2) }),
                    w == rg.2 - rg.0 + 1,
                    total_len(b@) == done + (r - rg.1) * w + (c - rg.0),
                decreases rg.2 + 1 - c,
            {
                proof {
                    lemma_slot(cols as int, rows as int, c as int, r as int);
                }
                let idx: usize = (r * cols + c) as usize;
                let ghost mid = b@;
                push_into(&mut b, idx, item);
                proof {
                    lemma_total_len_grows(mid, idx as int, b@[idx as int]);
                    assert forall|c2: int, r2: int| 0 <= c2 < cols && 0 <= r2 < rows implies #[trigger] cell(
                        b@,
                        cols as int,
                        c2,
                        r2,
                    ) == (if covers(rg, c2, r2) && (r2 < r || (r2 == r && c2 < c + 1)) {
                        prev(c2, r2).push(item)
                    } else {
                        prev(c2, r2)
                    }) by {
                        lemma_slot(cols as int, rows as int, c2, r2);
                        if r2 * cols + c2 == idx {
                            lemma_slot_injective(cols as int, c2, r2, c as int, r as int);
                            assert(cell(mid, cols as int, c as int, r as int) == prev(c as int, r as int));
                            assert(b@[idx as int]@ == mid[idx as int]@.push(item));
                        } else {
                            assert(cell(b@, cols as int, c2, r2) == cell(mid, cols as int, c2, r2));
                        }
                    }
                }
                c = c + 1;
            }
            assert((r - rg.1) * w + (c - rg.0) == (r + 1 - rg.1) * w) by (nonlinear_arith)
                requires c == rg.2 + 1, w == rg.2 - rg.0 + 1;
            r = r + 1;
        }
        assert((r - rg.1) * w == area(rg)) by (nonlinear_arith)
            requires r == rg.3 + 1, w == rg.2 - rg.0 + 1;
        proof {
            let next = items@.take(k + 1);
            assert(next.drop_last() =~= items@.take(k as int));
            assert(ranges@.take(k + 1).drop_last() =~= ranges@.take(k as int));
            assert(next[k as int] == item);
            assert forall|c: int, r: int| 0 <= c < cols && 0 <= r < rows implies #[trigger] cell(b@, cols as int, c, r)
                == stamped(next, ranges@, c, r) by {
                assert(stamped(next, ranges@, c, r) == (if covers(ranges@[k as int], c, r) {
                    stamped(items@.take(k as int), ranges@, c, r).push(item)
                } else {
                    stamped(items@.take(k as int), ranges@, c, r)
                }));
            }
        }
        k = k + 1;
    }
    assert(items@.take(items@.len() as int) =~= items@);
    assert(ranges@.take(ranges@.len() as int) =~= ranges@);
    b
}

/// The segments between consecutive points of one polyline.
pub open spec fn line_edges(pts: Seq<PointBits>) -> Seq<CoastEdge> {
    Seq::new(if pts.len() > 0 { (pts.len() - 1) as nat } else { 0 }, |i: int| CoastEdge { a: pts[i], b: pts[i + 1] })
}

/// The segments of all polylines, line by line.
pub open spec fn edges_of(lines: Seq<Seq<PointBits>>) -> Seq<CoastEdge>
    decreases lines.len(),
{
    if lines.len() == 0 {
        Seq::empty()
    } else {
        edges_of(lines.drop_last()) + line_edges(lines.last())
    }
}

/// The triangles of a mesh: one per full triple of indices, trailing
/// indices ignored.
pub open spec fn triangles_of(verts: Seq<PointBits>, idx: Seq<u32>) -> Seq<LandTriangle> {
    Seq::new(
        idx.len() / 3,
        |t: int| LandTriangle { v0: verts[idx[3 * t] as int], v1: verts[idx[3 * t + 1] as int], v2: verts[idx[3 * t + 2] as int] },
    )
}

/// Every index of a full triple names a vertex.
pub open spec fn indices_in_range(nverts: int, idx: Seq<u32>) -> bool {
    forall|i: int| 0 <= i < (idx.len() / 3) * 3 ==> (#[trigger] idx[i] as int) < nverts
}

/// The coastline's segments, in polyline order.
pub fn coast_edges(coastline: &CoastlineMap) -> (v: Vec<CoastEdge>)
    ensures
        v@ == edges_of(lines_view(coastline.lines@)),
{
    let ghost lv = lines_view(coastline.lines@);
    let mut v: Vec<CoastEdge> = Vec::new();
    let mut i: usize = 0;
    while i < coastline.lines.len()
        invariant
            i <= coastline.lines@.len(),
            lv == lines_view(coastline.lines@),
            v@ == edges_of(lv.take(i as int)),
        decreases coastline.lines@.len() - i,
    {
        let line = &coastline.lines[i];
        assert(lv[i as int] == line@);
        let ghost base = v@;
        let mut j: usize = 1;
        while j < line.len()
            invariant
                1 <= j,
                j <= line@.len() || j == 1,
                v@ == base + line_edges(line@).take(j - 1),
            decreases line@.len() - j,
        {
            let e = CoastEdge { a: line[j - 1], b: line[j] };
            assert(line_edges(line@).take(j as int) =~= line_edges(line@).take(j - 1).push(e));
            v.push(e);
            j = j + 1;
        }
        proof {
            assert(line_edges(line@).take(line_edges(line@).len() as int) =~= line_edges(line@));
            if line@.len() > 0 {
                assert(j == line@.len());
            } else {
                assert(line_edges(line@).take(j - 1) =~= line_edges(line@));
            }
            let nxt = lv.take(i + 1);
            assert(nxt.drop_last() =~= lv.take(i as int));
            assert(nxt.last() == line@);
        }
        i = i + 1;
    }
    assert(lv.take(lv.len() as int) =~= lv);
    v
}

/// The mesh's triangles, one per full triple of indices.
pub fn land_triangles(mesh: &LandMesh) -> (v: Vec<LandTriangle>)
    requires
        indices_in_range(mesh.vertices@.len() as int, mesh.indices@),
    ensures
        v@ == triangles_of(mesh.vertices@, mesh.indices@),
{
    let ghost want = triangles_of(mesh.vertices@, mesh.indices@);
    let mut v: Vec<LandTriangle> = Vec::new();
    let mut i: usize = 0;
    while mesh.indices.len() - i > 2
        invariant
            i % 3 == 0,
            i <= mesh.indices@.len(),
            v@.len() == i / 3,
            indices_in_range(mesh.vertices@.len() as int, mesh.indices@),
            want == triangles_of(mesh.vertices@, mesh.indices@),
            v@ == want.take(i as int / 3),
        decreases mesh.indices@.len() + 3 - i,
    {
        assert(i + 2 < (mesh.indices@.len() / 3) * 3);
        let a = mesh.indices[i];
        let b = mesh.indices[i + 1];
        let c = mesh.indices[i + 2];
        assert(mesh.indices@[i as int] < mesh.vertices@.len());
        assert(mesh.indices@[i + 1] < mesh.vertices@.len());
        assert(mesh.indices@[i + 2] < mesh.vertices@.len());
        let tri = LandTriangle {
            v0: mesh.vertices[a as usize],
            v1: mesh.vertices[b as usize],
            v2: mesh.vertices[c as usize],
        };
        assert(want[i as int / 3] == tri);
        assert(want.take(i as int / 3 + 1) =~= want.take(i as int / 3).push(tri));
        v.push(tri);
        i = i + 3;
    }
    let ghost len = mesh.indices@.len() as int;
    assert(i as int / 3 == len / 3) by (nonlinear_arith)
        requires i % 3 == 0, i <= len, len - i <= 2;
    assert(want.take(want.len() as int) =~= want);
    v
}

/// `total_len`, or `usize::MAX` where that does not fit.
pub open spec fn capped(n: nat) -> nat {
    if n <= usize::MAX { n } else { usize::MAX as nat }
}

/// Number of entries over all buckets, saturating at `usize::MAX`.
fn count_all<T>(b: &Vec<Vec<T>>) -> (n: usize)
    ensures
        n == capped(total_len(b@)),
{
    let mut acc: usize = 0;
    let mut i: usize = 0;
    while i < b.len()
        invariant
            i <= b@.len(),
            acc == capped(total_len(b@.take(i as int))),
        decreases b@.len() - i,
    {
        assert(b@.take(i + 1).drop_last() =~= b@.take(i as int));
        acc = acc.saturating_add(b[i].len());
        i = i + 1;
    }
    assert(b@.take(b@.len() as int) =~= b@);
    acc
}

/// Uniform-grid index over coastline segments: bucket `(c, r)` holds
/// every segment whose bounding box touches it.
pub struct CoastlineEdgeIndex {
    origin: PointBits,
    cols: u32,
    rows: u32,
    buckets: Vec<Vec<CoastEdge>>,
}

/// Uniform-grid index over land triangles, on the same grid as the
/// segment index.
pub struct LandTriangleIndex {
    origin: PointBits,
    cols: u32,
    rows: u32,
    buckets: Vec<Vec<LandTriangle>>,
}

impl CoastlineEdgeIndex {
    /// Grid shape consistent with the bucket list.
    pub closed spec fn wf(&self) -> bool {
        &&& self.cols * self.rows <= u32::MAX
        &&& self.buckets@.len() == self.cols * self.rows
    }

    /// Contents of bucket `(c, r)`.
    pub closed spec fn cell_view(&self, c: int, r: int) -> Seq<CoastEdge> {
        cell(self.buckets@, self.cols as int, c, r)
    }

    /// Entries over all buckets.
    pub closed spec fn total(&self) -> nat {
        total_len(self.buckets@)
    }

    pub closed spec fn shape(&self) -> (PointBits, u32, u32) {
        (self.origin, self.cols, self.rows)
    }

    /// File each segment in every bucket of its range.
    fn build(origin: PointBits, cols: u32, rows: u32, edges: &[CoastEdge], ranges: &[BucketRange]) -> (ix: Self)
        requires
            cols * rows <= u32::MAX,
            ranges@.len() == edges@.len(),
            ranges_ok(ranges@, cols as int, rows as int),
        ensures
            ix.wf(),
            ix.shape() == (origin, cols, rows),
            forall|c: int, r: int|
                0 <= c < cols && 0 <= r < rows ==> #[trigger] ix.cell_view(c, r) == stamped(edges@, ranges@, c, r),
            ix.total() == filed_count(ranges@),
    {
        let buckets = stamp_all(cols, rows, edges, ranges);
        let ix = CoastlineEdgeIndex { origin, cols, rows, buckets };
        assert forall|c: int, r: int| 0 <= c < cols && 0 <= r < rows implies #[trigger] ix.cell_view(c, r) == stamped(
            edges@,
            ranges@,
            c,
            r,
        ) by {
            assert(cell(buckets@, cols as int, c, r) == stamped(edges@, ranges@, c, r));
        }
        ix
    }
}

impl LandTriangleIndex {
    /// Grid shape consistent with the bucket list.
    pub closed spec fn wf(&self) -> bool {
        &&& self.cols * self.rows <= u32::MAX
        &&& self.buckets@.len() == self.cols * self.rows
    }

    /// Contents of bucket `(c, r)`.
    pub closed spec fn cell_view(&self, c: int, r: int) -> Seq<LandTriangle> {
        cell(self.buckets@, self.cols as int, c, r)
    }

    /// Entries over all buckets.
    pub closed spec fn total(&self) -> nat {
        total_len(self.buckets@)
    }

    pub closed spec fn shape(&self) -> (PointBits, u32, u32) {
        (self.origin, self.cols, self.rows)
    }

    /// File each triangle in every bucket of its range.
    fn build(origin: PointBits, cols: u32, rows: u32, tris: &[LandTriangle], ranges: &[BucketRange]) -> (ix: Self)
        requires
            cols * rows <= u32::MAX,
            ranges@.len() == tris@.len(),
            ranges_ok(ranges@, cols as int, rows as int),
        ensures
            ix.wf(),
            ix.shape() == (origin, cols, rows),
            forall|c: int, r: int|
                0 <= c < cols && 0 <= r < rows ==> #[trigger] ix.cell_view(c, r) == stamped(tris@, ranges@, c, r),
            ix.total() == filed_count(ranges@),
    {
        let buckets = stamp_all(cols, rows, tris, ranges);
        let ix = LandTriangleIndex { origin, cols, rows, buckets };
        assert forall|c: int, r: int| 0 <= c < cols && 0 <= r < rows implies #[trigger] ix.cell_view(c, r) == stamped(
            tris@,
            ranges@,
            c,
            r,
        ) by {
            assert(cell(buckets@, cols as int, c, r) == stamped(tris@, ranges@, c, r));
        }
        ix
    }
}

/// Segment index plus triangle index, with a note of which sources
/// provided anything. A query whose polygon source is missing falls
/// back to the raster's verdict.
pub struct CoastlineGeom {
    coast: CoastlineEdgeIndex,
    polys: LandTriangleIndex,
    has_polylines: bool,
    has_triangles: bool,
}

impl CoastlineGeom {
    pub closed spec fn wf(&self) -> bool {
        &&& self.coast.wf()
        &&& self.polys.wf()
        &&& self.coast.shape() == self.polys.shape()
    }

    /// Grid origin (as coordinate bit patterns), columns and rows.
    pub closed spec fn shape(&self) -> (PointBits, u32, u32) {
        self.coast.shape()
    }

    /// Segments filed under bucket `(c, r)`.
    pub closed spec fn edge_cell(&self, c: int, r: int) -> Seq<CoastEdge> {
        self.coast.cell_view(c, r)
    }

    /// Triangles filed under bucket `(c, r)`.
    pub closed spec fn tri_cell(&self, c: int, r: int) -> Seq<LandTriangle> {
        self.polys.cell_view(c, r)
    }

    pub closed spec fn edge_total(&self) -> nat {
        self.coast.total()
    }

    pub closed spec fn tri_total(&self) -> nat {
        self.polys.total()
    }

    pub closed spec fn flags(&self) -> (bool, bool) {
        (self.has_polylines, self.has_triangles)
    }

    /// Build both indices on a `cols × rows` grid at `origin`. The
    /// coastline's segments and the mesh's triangles are filed in the
    /// bucket ranges given for them, one range per segment and one per
    /// triangle, in order.
    pub fn build(
        origin: PointBits,
        cols: u32,
        rows: u32,
        coastline: &CoastlineMap,
        edge_ranges: &[BucketRange],
        mesh: &LandMesh,
        tri_ranges: &[BucketRange],
    ) -> (g: Self)
        requires
            cols * rows <= u32::MAX,
            edge_ranges@.len() == edges_of(lines_view(coastline.lines@)).len(),
            ranges_ok(edge_ranges@, cols as int, rows as int),
            indices_in_range(mesh.vertices@.len() as int, mesh.indices@),
            tri_ranges@.len() == mesh.indices@.len() / 3,
            ranges_ok(tri_ranges@, cols as int, rows as int),
        ensures
            g.wf(),
            g.shape() == (origin, cols, rows),
            forall|c: int, r: int|
                0 <= c < cols && 0 <= r < rows ==> #[trigger] g.edge_cell(c, r) == stamped(
                    edges_of(lines_view(coastline.lines@)),
                    edge_ranges@,
                    c,
                    r,
                ),
            forall|c: int, r: int|
                0 <= c < cols && 0 <= r < rows ==> #[trigger] g.tri_cell(c, r) == stamped(
                    triangles_of(mesh.vertices@, mesh.indices@),
                    tri_ranges@,
                    c,
                    r,
                ),
            g.edge_total() == filed_count(edge_ranges@),
            g.tri_total() == filed_count(tri_ranges@),
            g.flags() == (coastline.lines@.len() > 0, mesh.vertices@.len() > 0 && mesh.indices@.len() > 0),
    {
        let edges = coast_edges(coastline);
        let tris = land_triangles(mesh);
        let coast = CoastlineEdgeIndex::build(origin, cols, rows, edges.as_slice(), edge_ranges);
        let polys = LandTriangleIndex::build(origin, cols, rows, tris.as_slice(), tri_ranges);
        let has_polylines = coastline.lines.len() > 0;
        let has_triangles = mesh.vertices.len() > 0 && mesh.indices.len() > 0;
        let g = CoastlineGeom { coast, polys, has_polylines, has_triangles };
        assert forall|c: int, r: int| 0 <= c < cols && 0 <= r < rows implies #[trigger] g.edge_cell(c, r) == stamped(
            edges_of(lines_view(coastline.lines@)),
            edge_ranges@,
            c,
            r,
        ) by {
            assert(coast.cell_view(c, r) == stamped(edges@, edge_ranges@, c, r));
        }
        assert forall|c: int, r: int| 0 <= c < cols && 0 <= r < rows implies #[trigger] g.tri_cell(c, r) == stamped(
            triangles_of(mesh.vertices@, mesh.indices@),
            tri_ranges@,
            c,
            r,
        ) by {
            assert(polys.cell_view(c, r) == stamped(tris@, tri_ranges@, c, r));
        }
        g
    }

    /// Bucket columns.
    pub fn cols(&self) -> (n: u32)
        ensures
            n == self.shape().1,
    {
        self.coast.cols
    }

    /// Bucket rows.
    pub fn rows(&self) -> (n: u32)
        ensures
            n == self.shape().2,
    {
        self.coast.rows
    }

    /// Grid origin, as coordinate bit patterns.
    pub fn origin(&self) -> (o: PointBits)
        ensures
            o == self.shape().0,
    {
        self.coast.origin
    }

    /// The segments filed under bucket `(col, row)`.
    pub fn edges_in(&self, col: u32, row: u32) -> (v: &Vec<CoastEdge>)
        requires
            self.wf(),
            col < self.shape().1,
            row < self.shape().2,
        ensures
            v@ == self.edge_cell(col as int, row as int),
    {
        proof {
            lemma_slot(self.coast.cols as int, self.coast.rows as int, col as int, row as int);
        }
        &self.coast.buckets[(row * self.coast.cols + col) as usize]
    }

    /// The triangles filed under bucket `(col, row)`.
    pub fn triangles_in(&self, col: u32, row: u32) -> (v: &Vec<LandTriangle>)
        requires
            self.wf(),
            col < self.shape().1,
            row < self.shape().2,
        ensures
            v@ == self.tri_cell(col as int, row as int),
    {
        proof {
            lemma_slot(self.polys.cols as int, self.polys.rows as int, col as int, row as int);
        }
        &self.polys.buckets[(row * self.polys.cols + col) as usize]
    }

    /// Segment entries over all buckets (a segment counts once per
    /// bucket it is filed in), saturating at `usize::MAX`.
    pub fn coast_edge_count(&self) -> (n: usize)
        ensures
            n == capped(self.edge_total()),
    {
        count_all(&self.coast.buckets)
    }

    /// Triangle entries over all buckets, saturating at `usize::MAX`.
    pub fn land_triangle_count(&self) -> (n: usize)
        ensures
            n == capped(self.tri_total()),
    {
        count_all(&self.polys.buckets)
    }

    /// The coastline source provided at least one polyline.
    pub fn has_polylines(&self) -> (b: bool)
        ensures
            b == self.flags().0,
    {
        self.has_polylines
    }

    /// The mesh provided vertices and indices.
    pub fn has_triangles(&self) -> (b: bool)
        ensures
            b == self.flags().1,
    {
        self.has_triangles
    }
}

} // verus!
