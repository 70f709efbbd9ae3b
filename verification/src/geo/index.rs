//! Longitude/latitude bucket index over the globe's tiles.
//!
//! A uniform lon/lat grid holds, per cell, the tiles whose centre falls in
//! it. A nearest-tile lookup scans square rings of cells of growing radius
//! around the query's cell (longitude wraps around, latitude does not)
//! until a ring holds a candidate.

use vstd::prelude::*;
use crate::geo::mesh::TileId;

verus! {

/// Default number of longitude cells (2.5 degrees each).
pub const DEFAULT_LON_CELLS: u32 = 144;
/// Default number of latitude cells (2.5 degrees each).
pub const DEFAULT_LAT_CELLS: u32 = 72;

/// Integer absolute value.
pub open spec fn abs(v: int) -> int {
    if v < 0 { -v } else { v }
}

/// Bucket indices of row `ry` (offset `dy` from the centre) of the ring
/// of radius `r` around column `cx`, for the first `b` column offsets
/// `-r, -r+1, ...`: only cells on the ring's border, longitude wrapped.
pub open spec fn ring_row(lon: int, cx: int, r: int, dy: int, ry: int, b: nat) -> Seq<int>
    decreases b,
{
    if b == 0 {
        Seq::empty()
    } else {
        let prev = ring_row(lon, cx, r, dy, ry, (b - 1) as nat);
        let dx = b - 1 - r;
        if abs(dx) != r && abs(dy) != r {
            prev
        } else {
            prev.push(ry * lon + (cx + dx) % lon)
        }
    }
}

/// Bucket indices of the ring of radius `r` around cell `(cx, cy)`, for
/// the first `a` row offsets `-r, -r+1, ...`, rows outside the grid
/// skipped, in scan order.
pub open spec fn ring_cells(lon: int, lat: int, cx: int, cy: int, r: int, a: nat) -> Seq<int>
    decreases a,
{
    if a == 0 {
        Seq::empty()
    } else {
        let prev = ring_cells(lon, lat, cx, cy, r, (a - 1) as nat);
        let dy = a - 1 - r;
        let ry = cy + dy;
        if ry < 0 || ry >= lat {
            prev
        } else {
            prev + ring_row(lon, cx, r, dy, ry, (2 * r + 1) as nat)
        }
    }
}

proof fn lemma_wrap_nonneg(v: int, lon: int, w: int)
    requires
        v >= 0,
        lon >= 1,
        w == v % lon,
    ensures
        0 <= w < lon,
        w == v % lon,
{
}

proof fn lemma_wrap_neg(v: int, lon: int, m: int)
    requires
        v < 0,
        lon >= 1,
        m == (-v) % lon,
    ensures
        0 <= m < lon,
        (if m == 0 { 0 } else { lon - m }) == v % lon,
{
    let q = (-v) / lon;
    vstd::arithmetic::div_mod::lemma_fundamental_div_mod(-v, lon);
    assert(-v == lon * q + m);
    assert(lon * (-q) == -(lon * q)) by (nonlinear_arith);
    assert(lon * (-q - 1) == -(lon * q) - lon) by (nonlinear_arith);
    if m == 0 {
        assert(v == lon * (-q));
        vstd::arithmetic::div_mod::lemma_mod_multiples_basic(-q, lon);
        assert((-q) * lon == lon * (-q)) by (nonlinear_arith);
    } else {
        assert(v == lon * (-q - 1) + (lon - m));
        vstd::arithmetic::div_mod::lemma_mod_multiples_vanish(-q - 1, lon - m, lon);
        vstd::arithmetic::div_mod::lemma_small_mod((lon - m) as nat, lon as nat);
    }
}

/// Bucket grid: `buckets[cy * lon_cells + cx]` holds the tiles of cell
/// `(cx, cy)`.
pub struct DirectionIndex {
    lon_cells: u32,
    lat_cells: u32,
    buckets: Vec<Vec<TileId>>,
}

impl DirectionIndex {
    /// Grid dimensions are positive and every bucket index fits.
    pub closed spec fn wf(self) -> bool {
        &&& 1 <= self.lon_cells <= i32::MAX
        &&& 1 <= self.lat_cells <= i32::MAX
        &&& self.lon_cells * self.lat_cells <= u32::MAX
        &&& self.buckets@.len() == 0 || self.buckets@.len() == self.lon_cells * self.lat_cells
    }

    /// Number of longitude cells.
    pub closed spec fn lon(self) -> int {
        self.lon_cells as int
    }

    /// Number of latitude cells.
    pub closed spec fn lat(self) -> int {
        self.lat_cells as int
    }

    /// The tiles of every bucket.
    pub closed spec fn contents(self) -> Seq<Seq<TileId>> {
        self.buckets@.map_values(|b: Vec<TileId>| b@)
    }

    /// An index with `lon_cells * lat_cells` empty buckets.
    pub fn new(lon_cells: u32, lat_cells: u32) -> (d: DirectionIndex)
        requires
            1 <= lon_cells <= i32::MAX,
            1 <= lat_cells <= i32::MAX,
            lon_cells * lat_cells <= u32::MAX,
        ensures
            d.wf(),
            d.lon() == lon_cells,
            d.lat() == lat_cells,
            d.contents().len() == lon_cells * lat_cells,
            forall|i: int| 0 <= i < d.contents().len() ==> d.contents()[i].len() == 0,
    {
        let n: usize = (lon_cells * lat_cells) as usize;
        let mut buckets: Vec<Vec<TileId>> = Vec::new();
        let mut i: usize = 0;
        while i < n
            invariant
                i <= n,
                buckets@.len() == i,
                forall|j: int| 0 <= j < i ==> buckets@[j]@.len() == 0,
            decreases n - i,
        {
            buckets.push(Vec::new());
            i = i + 1;
        }
        let d = DirectionIndex { lon_cells, lat_cells, buckets };
        assert(d.contents().len() == n);
        d
    }

    /// Number of longitude cells.
    pub fn lon_cells(&self) -> (n: u32)
        requires
            self.wf(),
        ensures
            n == self.lon(),
            n >= 1,
    {
        self.lon_cells
    }

    /// Number of latitude cells.
    pub fn lat_cells(&self) -> (n: u32)
        requires
            self.wf(),
        ensures
            n == self.lat(),
            n >= 1,
    {
        self.lat_cells
    }

    /// Number of buckets: `lon_cells * lat_cells`, or 0 for an index
    /// with no buckets laid out yet.
    pub fn bucket_count(&self) -> (n: usize)
        requires
            self.wf(),
        ensures
            n == self.contents().len(),
            n == 0 || n == self.lon() * self.lat(),
    {
        self.buckets.len()
    }

    /// File `tile` under cell `(cx, cy)`.
    pub fn insert(&mut self, cx: u32, cy: u32, tile: TileId)
        requires
            old(self).wf(),
            cx < old(self).lon(),
            cy < old(self).lat(),
            old(self).contents().len() > 0,
        ensures
            final(self).wf(),
            final(self).lon() == old(self).lon(),
            final(self).lat() == old(self).lat(),
            final(self).contents() == old(self).contents().update(
                cy * old(self).lon() + cx,
                old(self).contents()[cy * old(self).lon() + cx].push(tile),
            ),
    {
        let ghost before = self.contents();
        proof {
            assert(cy * self.lon_cells + cx < self.lon_cells * self.lat_cells) by (nonlinear_arith)
                requires cy < self.lat_cells, cx < self.lon_cells;
        }
        let idx: usize = (cy * self.lon_cells + cx) as usize;
        let mut b = Vec::new();
        std::mem::swap(&mut b, &mut self.buckets[idx]);
        b.push(tile);
        self.buckets.set(idx, b);
        assert(self.contents() =~= before.update(idx as int, before[idx as int].push(tile)));
    }

    /// The tiles filed under bucket `idx`.
    pub fn bucket(&self, idx: usize) -> (b: &Vec<TileId>)
        requires
            idx < self.contents().len(),
        ensures
            b@ == self.contents()[idx as int],
    {
        &self.buckets[idx]
    }

    /// Bucket indices of the ring of radius `radius` around `(cx, cy)`,
    /// in the order a nearest-tile scan visits them.
    pub fn ring_buckets(&self, cx: u32, cy: u32, radius: u32) -> (v: Vec<usize>)
        requires
            self.wf(),
            cx < self.lon(),
            cy < self.lat(),
            radius <= i32::MAX,
        ensures
            v@.map_values(|i: usize| i as int) == ring_cells(
                self.lon(),
                self.lat(),
                cx as int,
                cy as int,
                radius as int,
                (2 * radius + 1) as nat,
            ),
            forall|i: int| 0 <= i < v@.len() ==> (v@[i] as int) < self.lon() * self.lat(),
    {
        let lon: i64 = self.lon_cells as i64;
        let lat: i64 = self.lat_cells as i64;
        let r: i64 = radius as i64;
        let ghost lon_i = lon as int;
        let mut out: Vec<usize> = Vec::new();
        let mut a: i64 = 0;
        while a < 2 * r + 1
            invariant
                0 <= a <= 2 * r + 1,
                r == radius,
                lon == self.lon(),
                lat == self.lat(),
                1 <= lon <= i32::MAX,
                1 <= lat <= i32::MAX,
                lon * lat <= u32::MAX,
                r <= i32::MAX,
                cx < lon,
                cy < lat,
                out@.map_values(|i: usize| i as int) == ring_cells(lon as int, lat as int, cx as int, cy as int, r as int, a as nat),
                forall|i: int| 0 <= i < out@.len() ==> (out@[i] as int) < lon * lat,
            decreases 2 * r + 1 - a,
        {
            let dy: i64 = a - r;
            let ry: i64 = cy as i64 + dy;
            if ry >= 0 && ry < lat {
                let ghost row_start = out@;
                let mut b: i64 = 0;
                while b < 2 * r + 1
                    invariant
                        0 <= b <= 2 * r + 1,
                        0 <= ry < lat,
                        dy == a - r,
                        0 <= a < 2 * r + 1,
                        r == radius,
                        1 <= lon <= i32::MAX,
                        1 <= lat <= i32::MAX,
                        lon * lat <= u32::MAX,
                        r <= i32::MAX,
                        cx < lon,
                        out@.map_values(|i: usize| i as int) == row_start.map_values(|i: usize| i as int)
                            + ring_row(lon as int, cx as int, r as int, dy as int, ry as int, b as nat),
                        forall|i: int| 0 <= i < out@.len() ==> (out@[i] as int) < lon * lat,
                    decreases 2 * r + 1 - b,
                {
                    let dx: i64 = b - r;
                    let ghost prev_out = out@;
                    let ghost prev_row = ring_row(lon as int, cx as int, r as int, dy as int, ry as int, b as nat);
                    let adx: i64 = if dx < 0 { -dx } else { dx };
                    let ady: i64 = if dy < 0 { -dy } else { dy };
                    if adx == r || ady == r {
                        let v: i64 = cx as i64 + dx;
                        let rx: i64 = if v >= 0 {
                            let w: u64 = (v as u64) % (lon as u64);
                            proof { lemma_wrap_nonneg(v as int, lon as int, w as int); }
                            w as i64
                        } else {
                            let m: u64 = ((-v) as u64) % (lon as u64);
                            proof { lemma_wrap_neg(v as int, lon as int, m as int); }
                            if m == 0 { 0 } else { lon - (m as i64) }
                        };
                        assert(rx as int == (cx as int + dx as int) % (lon as int));
                        proof {
                            assert(ry * lon + rx < lon * lat) by (nonlinear_arith)
                                requires 0 <= ry < lat, 0 <= rx < lon;
                        }
                        let idx: usize = (ry * lon + rx) as usize;
                        out.push(idx);
                        assert(out@.map_values(|i: usize| i as int) =~= prev_out.map_values(|i: usize| i as int).push(idx as int));
                    }
                    b = b + 1;
                    assert(ring_row(lon as int, cx as int, r as int, dy as int, ry as int, b as nat)
                        == (if adx != r && ady != r { prev_row } else {
                            prev_row.push(ry * lon + (cx as int + dx as int) % (lon as int)) }));
                    assert(out@.map_values(|i: usize| i as int) =~= row_start.map_values(|i: usize| i as int)
                        + ring_row(lon as int, cx as int, r as int, dy as int, ry as int, b as nat));
                }
            }
            a = a + 1;
            assert(out@.map_values(|i: usize| i as int) =~= ring_cells(lon as int, lat as int, cx as int, cy as int, r as int, a as nat));
        }
        out
    }
}

impl Default for DirectionIndex {
    /// The default 144 × 72 grid, with no buckets laid out.
    fn default() -> (d: DirectionIndex)
        ensures
            d.wf(),
            d.lon() == DEFAULT_LON_CELLS,
            d.lat() == DEFAULT_LAT_CELLS,
            d.contents().len() == 0,
    {
        let d = DirectionIndex { lon_cells: DEFAULT_LON_CELLS, lat_cells: DEFAULT_LAT_CELLS, buckets: Vec::new() };
        assert(d.contents().len() == 0);
        d
    }
}

} // verus!
