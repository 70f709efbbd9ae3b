//! Binary land/sea mask of the chart.
//!
//! File format, little-endian:
//! ```text
//! u32 width, u32 height,
//! f32 origin_x, f32 origin_y (NW corner, nautical miles), f32 cell_size (nautical miles),
//! u8 × width*height   // row-major, north to south; 255 = land, anything else = sea
//! ```
//! The three `f32` fields are decoded as their bit patterns.

use vstd::prelude::*;
use crate::coastline::{le_u32_at, u32_at};
use std::collections::{HashSet, VecDeque};

verus! {

/// Why a land-mask file was refused.
#[derive(Debug, Clone, Copy, PartialEq, Eq, Structural)]
pub enum LandMaskError {
    /// Fewer than the twenty header bytes.
    TooSmall,
    /// A dimension, or the cell count, does not fit the grid's index range.
    TooLarge,
    /// The data length differs from `width * height`.
    SizeMismatch { expected: usize, got: usize },
}

/// Land/sea raster: `data[row * width + col]` is 255 for land.
pub struct LandGrid {
    pub data: Vec<u8>,
    pub width: u32,
    pub height: u32,
}

/// A decoded land-mask file: the grid and the bit patterns of
/// `origin_x`, `origin_y` and `cell_size`.
pub struct LandMaskFile {
    pub grid: LandGrid,
    pub origin_x_bits: u32,
    pub origin_y_bits: u32,
    pub cell_size_bits: u32,
}

/// Cell `(c, r)` lies in a `w × h` grid.
pub open spec fn in_grid(w: int, h: int, c: int, r: int) -> bool {
    0 <= c < w && 0 <= r < h
}

impl LandGrid {
    /// The raster holds one byte per cell and every index fits.
    pub open spec fn wf(&self) -> bool {
        &&& self.width <= i32::MAX
        &&& self.height <= i32::MAX
        &&& self.width * self.height <= u32::MAX
        &&& self.data@.len() == self.width * self.height
    }

    /// Cell `(c, r)` is in bounds and sea: its byte is 0.
    pub open spec fn sea(&self, c: int, r: int) -> bool {
        in_grid(self.width as int, self.height as int, c, r) && self.data@[r * self.width + c] == 0
    }

    /// Cell `(c, r)` is in bounds and land: its byte is 255.
    pub open spec fn land(&self, c: int, r: int) -> bool {
        in_grid(self.width as int, self.height as int, c, r) && self.data@[r * self.width + c] == 255
    }

    /// Every cell of the `(2 * rad + 1)`-square centred on `(c, r)` is in
    /// bounds and sea.
    pub open spec fn clear_within(&self, c: int, r: int, rad: int) -> bool {
        forall|dc: int, dr: int| -rad <= dc <= rad && -rad <= dr <= rad ==> #[trigger] self.sea(c + dc, r + dr)
    }

    /// Wrap a raster of `width * height` cells.
    pub fn from_raw(data: Vec<u8>, width: u32, height: u32) -> (g: LandGrid)
        requires
            width <= i32::MAX,
            height <= i32::MAX,
            width * height <= u32::MAX,
            data@.len() == width * height,
        ensures
            g.wf(),
            g.data@ == data@,
            g.width == width,
            g.height == height,
    {
        LandGrid { data, width, height }
    }

    /// Whether cell `(col, row)` is in bounds and sea.
    pub fn is_sea_cell(&self, col: u32, row: u32) -> (b: bool)
        requires
            self.wf(),
        ensures
            b == self.sea(col as int, row as int),
    {
        if col >= self.width || row >= self.height {
            return false;
        }
        proof {
            assert(row * self.width + col < self.width * self.height) by (nonlinear_arith)
                requires row < self.height, col < self.width;
        }
        let idx = (row * self.width + col) as usize;
        self.data[idx] == 0
    }

    /// Whether the in-bounds cell `(col, row)` is land.
    pub fn is_land_cell(&self, col: u32, row: u32) -> (b: bool)
        requires
            self.wf(),
            col < self.width,
            row < self.height,
        ensures
            b == self.land(col as int, row as int),
    {
        proof {
            assert(row * self.width + col < self.width * self.height) by (nonlinear_arith)
                requires row < self.height, col < self.width;
        }
        let idx = (row * self.width + col) as usize;
        self.data[idx] == 255
    }

    /// Whether the cell and its `radius`-cell Chebyshev neighbourhood are
    /// all in bounds and sea (`radius = 1` is the 3 × 3 block).
    pub fn has_cell_clearance(&self, col: u32, row: u32, radius: u32) -> (b: bool)
        requires
            self.wf(),
            radius <= i32::MAX,
        ensures
            b == self.clear_within(col as int, row as int, radius as int),
    {
        let r: i64 = radius as i64;
        let mut dr: i64 = -r;
        while dr <= r
            invariant
                r == radius,
                self.wf(),
                -r <= dr <= r + 1,
                forall|a: int, b: int| -r <= a <= r && -r <= b < dr ==> #[trigger] self.sea(col + a, row + b),
            decreases r + 1 - dr,
        {
            let mut dc: i64 = -r;
            while dc <= r
                invariant
                    r == radius,
                    self.wf(),
                    -r <= dr <= r,
                    -r <= dc <= r + 1,
                    forall|a: int, b: int| -r <= a <= r && -r <= b < dr ==> #[trigger] self.sea(col + a, row + b),
                    forall|a: int| -r <= a < dc ==> #[trigger] self.sea(col + a, row + dr),
                decreases r + 1 - dc,
            {
                let nc: i64 = col as i64 + dc;
                let nr: i64 = row as i64 + dr;
                if nc < 0 || nr < 0 || nc >= self.width as i64 || nr >= self.height as i64 {
                    assert(!self.sea(col + dc, row + dr));
                    return false;
                }
                if !self.is_sea_cell(nc as u32, nr as u32) {
                    return false;
                }
                dc = dc + 1;
            }
            dr = dr + 1;
        }
        true
    }

    /// Whether the cell and its eight neighbours are all in bounds and sea,
    /// so a ship there does not graze the coast.
    pub fn is_clear_cell(&self, col: u32, row: u32) -> (b: bool)
        requires
            self.wf(),
        ensures
            b == self.clear_within(col as int, row as int, 1),
    {
        self.has_cell_clearance(col, row, 1)
    }
}

// ---------------------------------------------------------------------------
// Nearest sea cell

broadcast use vstd::std_specs::hash::group_hash_axioms;

/// Chebyshev (king-move) distance between two cells.
pub open spec fn cheb(c1: int, r1: int, c2: int, r2: int) -> int {
    let dc = if c1 >= c2 { c1 - c2 } else { c2 - c1 };
    let dr = if r1 >= r2 { r1 - r2 } else { r2 - r1 };
    if dc >= dr { dc } else { dr }
}

/// Some sea cell lies within Chebyshev distance `k` of `(c, r)`.
pub open spec fn sea_within(g: &LandGrid, c: int, r: int, k: int) -> bool {
    exists|c2: int, r2: int| #[trigger] g.sea(c2, r2) && cheb(c2, r2, c, r) <= k
}

/// Key of a cell in the visited set.
pub open spec fn cell_key(c: int, r: int) -> u64 {
    (c * 0x1_0000_0000 + r) as u64
}

/// Every in-grid king neighbour of `(c, r)` has been visited.
pub open spec fn expanded(g: &LandGrid, vis: Set<u64>, c: int, r: int) -> bool {
    forall|dc: int, dr: int|
        -1 <= dc <= 1 && -1 <= dr <= 1 && !(dc == 0 && dr == 0) && in_grid(g.width as int, g.height as int, c + dc, r + dr)
            ==> #[trigger] vis.contains(cell_key(c + dc, r + dr))
}

/// Cell `(c, r)` waits in the queue.
pub open spec fn queued(q: Seq<(u32, u32, u32)>, c: int, r: int) -> bool {
    exists|i: int| 0 <= i < q.len() && (#[trigger] q[i]).0 == c && q[i].1 == r
}

/// The search's invariant: queue entries are visited in-grid cells at
/// their distance from the start, in non-decreasing order spanning at most
/// one layer; visited cells other than the start are land; every visited
/// in-grid cell is queued, beyond the search radius, or expanded.
pub open spec fn bfs_inv(g: &LandGrid, vis: Set<u64>, q: Seq<(u32, u32, u32)>, sc: int, sr: int, maxr: int) -> bool {
    &&& vis.contains(cell_key(sc, sr))
    &&& forall|i: int| 0 <= i < q.len() ==> {
        let e = #[trigger] q[i];
        &&& in_grid(g.width as int, g.height as int, e.0 as int, e.1 as int)
        &&& vis.contains(cell_key(e.0 as int, e.1 as int))
        &&& e.2 == cheb(e.0 as int, e.1 as int, sc, sr)
        &&& e.2 <= q[0].2 + 1
    }
    &&& forall|i: int, j: int| 0 <= i < j < q.len() ==> (#[trigger] q[i]).2 <= (#[trigger] q[j]).2
    &&& forall|c: int, r: int| in_grid(g.width as int, g.height as int, c, r) && #[trigger] vis.contains(cell_key(c, r)) ==> {
        &&& (c != sc || r != sr ==> !g.sea(c, r))
        &&& (queued(q, c, r) || cheb(c, r, sc, sr) > maxr || expanded(g, vis, c, r))
    }
}

proof fn lemma_cell_key_injective(c1: int, r1: int, c2: int, r2: int)
    requires
        0 <= c1 < 0x1_0000_0000,
        0 <= r1 < 0x1_0000_0000,
        0 <= c2 < 0x1_0000_0000,
        0 <= r2 < 0x1_0000_0000,
        cell_key(c1, r1) == cell_key(c2, r2),
    ensures
        c1 == c2 && r1 == r2,
{
    assert(c1 * 0x1_0000_0000 + r1 < 0x1_0000_0000_0000_0000) by (nonlinear_arith)
        requires 0 <= c1 < 0x1_0000_0000, 0 <= r1 < 0x1_0000_0000;
    assert(c2 * 0x1_0000_0000 + r2 < 0x1_0000_0000_0000_0000) by (nonlinear_arith)
        requires 0 <= c2 < 0x1_0000_0000, 0 <= r2 < 0x1_0000_0000;
    assert(c1 * 0x1_0000_0000 + r1 >= 0) by (nonlinear_arith)
        requires 0 <= c1, 0 <= r1;
    assert(c2 * 0x1_0000_0000 + r2 >= 0) by (nonlinear_arith)
        requires 0 <= c2, 0 <= r2;
    assert(c1 * 0x1_0000_0000 + r1 == c2 * 0x1_0000_0000 + r2);
    assert(c1 == c2) by (nonlinear_arith)
        requires c1 * 0x1_0000_0000 + r1 == c2 * 0x1_0000_0000 + r2, 0 <= r1 < 0x1_0000_0000, 0 <= r2 < 0x1_0000_0000;
}

/// Every in-grid cell within distance `k` of an in-grid start has been
/// visited, when no queued cell is closer than `k`.
proof fn lemma_layers_visited(g: &LandGrid, vis: Set<u64>, q: Seq<(u32, u32, u32)>, sc: int, sr: int, maxr: int, k: int)
    requires
        g.wf(),
        in_grid(g.width as int, g.height as int, sc, sr),
        bfs_inv(g, vis, q, sc, sr, maxr),
        forall|i: int| 0 <= i < q.len() ==> (#[trigger] q[i]).2 >= k,
        0 <= k <= maxr + 1,
    ensures
        forall|c: int, r: int| in_grid(g.width as int, g.height as int, c, r) && cheb(c, r, sc, sr) <= k ==> #[trigger] vis.contains(cell_key(c, r)),
    decreases k,
{
    if k > 0 {
        lemma_layers_visited(g, vis, q, sc, sr, maxr, k - 1);
        assert forall|c: int, r: int| in_grid(g.width as int, g.height as int, c, r) && cheb(c, r, sc, sr) <= k implies #[trigger] vis.contains(cell_key(c, r)) by {
            if cheb(c, r, sc, sr) == k {
                let dc: int = if sc > c { 1 } else if sc < c { -1 } else { 0 };
                let dr: int = if sr > r { 1 } else if sr < r { -1 } else { 0 };
                let uc = c + dc;
                let ur = r + dr;
                assert(in_grid(g.width as int, g.height as int, uc, ur));
                assert(cheb(uc, ur, sc, sr) == k - 1);
                assert(vis.contains(cell_key(uc, ur)));
                if queued(q, uc, ur) {
                    let i = choose|i: int| 0 <= i < q.len() && (#[trigger] q[i]).0 == uc && q[i].1 == ur;
                    assert(q[i].2 >= k);
                }
                assert(expanded(g, vis, uc, ur));
                assert(c == uc + (-dc) && r == ur + (-dr));
                assert(vis.contains(cell_key(uc + (-dc), ur + (-dr))));
            }
        }
    }
}

/// The eight king-move offsets, in search order.
pub open spec fn offset(k: int) -> (int, int) {
    if k == 0 { (-1, 0) } else if k == 1 { (1, 0) } else if k == 2 { (0, -1) } else if k == 3 { (0, 1) }
    else if k == 4 { (-1, -1) } else if k == 5 { (1, -1) } else if k == 6 { (-1, 1) } else { (1, 1) }
}

proof fn lemma_offsets_cover(dc: int, dr: int)
    requires
        -1 <= dc <= 1,
        -1 <= dr <= 1,
        !(dc == 0 && dr == 0),
    ensures
        exists|k: int| 0 <= k < 8 && #[trigger] offset(k) == (dc, dr),
{
    if dc == -1 && dr == 0 { assert(offset(0) == (dc, dr)); }
    else if dc == 1 && dr == 0 { assert(offset(1) == (dc, dr)); }
    else if dc == 0 && dr == -1 { assert(offset(2) == (dc, dr)); }
    else if dc == 0 && dr == 1 { assert(offset(3) == (dc, dr)); }
    else if dc == -1 && dr == -1 { assert(offset(4) == (dc, dr)); }
    else if dc == 1 && dr == -1 { assert(offset(5) == (dc, dr)); }
    else if dc == -1 && dr == 1 { assert(offset(6) == (dc, dr)); }
    else { assert(offset(7) == (dc, dr)); }
}

impl LandGrid {
    /// The nearest sea cell to `(col, row)`, searching breadth-first over
    /// king moves (so by Chebyshev distance) up to `max_radius + 1` cells
    /// away; the cell itself when it is sea. `None` when no sea cell lies
    /// that close.
    pub fn nearest_sea_cell(&self, col: u32, row: u32, max_radius: u32) -> (res: Option<(u32, u32)>)
        requires
            self.wf(),
            col < self.width,
            row < self.height,
        ensures
            self.sea(col as int, row as int) ==> res == Some((col, row)),
            res matches Some(w) ==> self.sea(w.0 as int, w.1 as int)
                && cheb(w.0 as int, w.1 as int, col as int, row as int) <= max_radius + 1
                && !sea_within(self, col as int, row as int, cheb(w.0 as int, w.1 as int, col as int, row as int) - 1),
            res is None ==> !sea_within(self, col as int, row as int, max_radius + 1),
    {
        if self.is_sea_cell(col, row) {
            return Some((col, row));
        }
        let ghost sc = col as int;
        let ghost sr = row as int;
        let ghost maxr = max_radius as int;
        let w = self.width;
        let h = self.height;
        let mut visited: HashSet<u64> = HashSet::new();
        let mut queue: VecDeque<(u32, u32, u32)> = VecDeque::new();
        visited.insert(col as u64 * 0x1_0000_0000 + row as u64);
        queue.push_back((col, row, 0));
        let ghost mut vis_idx: Set<int> = set![row * w + col];
        proof {
            assert(row * w + col < w * h) by (nonlinear_arith)
                requires row < h, col < w;
            assert(0 <= row * w + col) by (nonlinear_arith)
                requires 0 <= row, 0 <= col, w >= 0;
            assert forall|c: int, r: int| in_grid(w as int, h as int, c, r) implies (#[trigger] vis_idx.contains(r * w + c)
                <==> visited@.contains(cell_key(c, r))) by {
                if r * w + c == row * w + col {
                    assert(r == row && c == col) by (nonlinear_arith)
                        requires r * w + c == row * w + col, 0 <= c < w, 0 <= col < w;
                }
                if cell_key(c, r) == cell_key(sc, sr) {
                    lemma_cell_key_injective(c, r, sc, sr);
                }
            }
            assert(cheb(sc, sr, sc, sr) == 0);
            assert forall|c: int, r: int| in_grid(w as int, h as int, c, r) && #[trigger] visited@.contains(cell_key(c, r)) implies {
                &&& (c != sc || r != sr ==> !self.sea(c, r))
                &&& (queued(queue@, c, r) || cheb(c, r, sc, sr) > maxr || expanded(self, visited@, c, r))
            } by {
                lemma_cell_key_injective(c, r, sc, sr);
                assert(queue@[0].0 == c && queue@[0].1 == r);
            }
        }
        loop
            invariant
                self.wf(),
                w == self.width,
                h == self.height,
                sc == col,
                sr == row,
                maxr == max_radius,
                !self.sea(sc, sr),
                in_grid(w as int, h as int, sc, sr),
                vis_idx.finite(),
                bfs_inv(self, visited@, queue@, sc, sr, maxr),
                forall|c: int, r: int| in_grid(w as int, h as int, c, r) ==> (#[trigger] vis_idx.contains(r * w + c) <==> visited@.contains(cell_key(c, r))),
                vis_idx.subset_of(vstd::set_lib::set_int_range(0, w * h)),
            decreases 2 * (w * h - vis_idx.len()) + queue@.len(),
        {
            let ghost q0 = queue@;
            let ghost m0 = 2 * (w * h - vis_idx.len()) + queue@.len();
            proof {
                vstd::set_lib::lemma_int_range(0, w * h);
                vstd::set_lib::lemma_len_subset(vis_idx, vstd::set_lib::set_int_range(0, w * h));
            }
            let front = queue.pop_front();
            match front {
                None => {
                    proof {
                        lemma_layers_visited(self, visited@, queue@, sc, sr, maxr, maxr + 1);
                        assert forall|c2: int, r2: int| #[trigger] self.sea(c2, r2) implies !(cheb(c2, r2, sc, sr) <= maxr + 1) by {
                            if cheb(c2, r2, sc, sr) <= maxr + 1 {
                                assert(visited@.contains(cell_key(c2, r2)));
                            }
                        }
                    }
                    return None;
                },
                Some(entry) => {
                    let (c, r, d) = entry;
                    assert(q0[0] == entry);
                    if d > max_radius {
                        proof {
                            assert forall|i: int| 0 <= i < queue@.len() implies (#[trigger] queue@[i]).2 <= queue@[0].2 + 1 by {
                                assert(queue@[i] == q0[i + 1]);
                                assert(q0[0].2 <= q0[1].2);
                            }
                            assert forall|c2: int, r2: int| in_grid(w as int, h as int, c2, r2) && #[trigger] visited@.contains(cell_key(c2, r2))
                                implies (queued(queue@, c2, r2) || cheb(c2, r2, sc, sr) > maxr || expanded(self, visited@, c2, r2)) by {
                                if queued(q0, c2, r2) && !(c2 == c && r2 == r) {
                                    let i = choose|i: int| 0 <= i < q0.len() && (#[trigger] q0[i]).0 == c2 && q0[i].1 == r2;
                                    assert(i >= 1);
                                    assert(queue@[i - 1] == q0[i]);
                                }
                            }
                        }
                        assert(2 * (w * h - vis_idx.len()) + queue@.len() < m0);
                        continue;
                    }
                    proof {
                        assert forall|i: int| 0 <= i < q0.len() implies (#[trigger] q0[i]).2 >= d by {
                            if i > 0 {
                                assert(q0[0].2 <= q0[i].2);
                            }
                        }
                        lemma_layers_visited(self, visited@, q0, sc, sr, maxr, d as int);
                        assert forall|c2: int, r2: int| in_grid(w as int, h as int, c2, r2) && #[trigger] visited@.contains(cell_key(c2, r2))
                            implies (queued(queue@, c2, r2) || cheb(c2, r2, sc, sr) > maxr || expanded(self, visited@, c2, r2) || (c2 == c
                                && r2 == r)) by {
                            if queued(q0, c2, r2) && !(c2 == c && r2 == r) {
                                let i = choose|i: int| 0 <= i < q0.len() && (#[trigger] q0[i]).0 == c2 && q0[i].1 == r2;
                                assert(i >= 1);
                                assert(queue@[i - 1] == q0[i]);
                            }
                        }
                    }
                    let mut k: usize = 0;
                    while k < 8
                        invariant
                            self.wf(),
                            w == self.width,
                            h == self.height,
                            sc == col,
                            sr == row,
                            maxr == max_radius,
                            !self.sea(sc, sr),
                            in_grid(w as int, h as int, sc, sr),
                            vis_idx.finite(),
                            in_grid(w as int, h as int, c as int, r as int),
                            d == cheb(c as int, r as int, sc, sr),
                            d <= maxr,
                            k <= 8,
                            visited@.contains(cell_key(sc, sr)),
                            visited@.contains(cell_key(c as int, r as int)),
                            forall|i: int| 0 <= i < queue@.len() ==> {
                                let e = #[trigger] queue@[i];
                                &&& in_grid(w as int, h as int, e.0 as int, e.1 as int)
                                &&& visited@.contains(cell_key(e.0 as int, e.1 as int))
                                &&& e.2 == cheb(e.0 as int, e.1 as int, sc, sr)
                                &&& d <= e.2 <= d + 1
                            },
                            forall|i: int, j: int| 0 <= i < j < queue@.len() ==> (#[trigger] queue@[i]).2 <= (#[trigger] queue@[j]).2,
                            forall|c2: int, r2: int| in_grid(w as int, h as int, c2, r2) && #[trigger] visited@.contains(cell_key(c2, r2)) ==> {
                                &&& (c2 != sc || r2 != sr ==> !self.sea(c2, r2))
                                &&& (queued(queue@, c2, r2) || cheb(c2, r2, sc, sr) > maxr || expanded(self, visited@, c2, r2) || (c2 == c
                                    && r2 == r))
                            },
                            forall|c2: int, r2: int| in_grid(w as int, h as int, c2, r2) && cheb(c2, r2, sc, sr) <= d ==> #[trigger] visited@.contains(
                                cell_key(c2, r2),
                            ),
                            forall|j: int| 0 <= j < k && in_grid(w as int, h as int, c + (#[trigger] offset(j)).0, r + offset(j).1) ==> visited@.contains(
                                cell_key(c + offset(j).0, r + offset(j).1),
                            ),
                            forall|c2: int, r2: int| in_grid(w as int, h as int, c2, r2) ==> (#[trigger] vis_idx.contains(r2 * w + c2) <==> visited@.contains(
                                cell_key(c2, r2),
                            )),
                            vis_idx.subset_of(vstd::set_lib::set_int_range(0, w * h)),
                            vis_idx.len() <= w * h,
                            2 * (w * h - vis_idx.len()) + queue@.len() < m0,
                        decreases 8 - k,
                    {
                        let (dc, dr): (i64, i64) = if k == 0 { (-1, 0) } else if k == 1 { (1, 0) } else if k == 2 { (0, -1) }
                            else if k == 3 { (0, 1) } else if k == 4 { (-1, -1) } else if k == 5 { (1, -1) }
                            else if k == 6 { (-1, 1) } else { (1, 1) };
                        assert((dc as int, dr as int) == offset(k as int));
                        let nc: i64 = c as i64 + dc;
                        let nr: i64 = r as i64 + dr;
                        if nc < 0 || nr < 0 || nc >= w as i64 || nr >= h as i64 {
                            k = k + 1;
                            continue;
                        }
                        let ncu = nc as u32;
                        let nru = nr as u32;
                        let key: u64 = ncu as u64 * 0x1_0000_0000 + nru as u64;
                        assert(key == cell_key(nc as int, nr as int));
                        let ghost vis_before = visited@;
                        if !visited.insert(key) {
                            k = k + 1;
                            continue;
                        }
                        proof {
                            assert(!vis_idx.contains(nr * w + nc));
                            assert(nr * w + nc < w * h) by (nonlinear_arith)
                                requires 0 <= nr < h, 0 <= nc < w;
                            assert(0 <= nr * w + nc) by (nonlinear_arith)
                                requires 0 <= nr, 0 <= nc, w >= 0;
                            vis_idx = vis_idx.insert(nr * w + nc);
                            vstd::set_lib::lemma_int_range(0, w * h);
                            vstd::set_lib::lemma_len_subset(vis_idx, vstd::set_lib::set_int_range(0, w * h));
                            assert forall|c2: int, r2: int| in_grid(w as int, h as int, c2, r2) implies (#[trigger] vis_idx.contains(r2 * w + c2)
                                <==> visited@.contains(cell_key(c2, r2))) by {
                                if r2 * w + c2 == nr * w + nc {
                                    assert(r2 == nr && c2 == nc) by (nonlinear_arith)
                                        requires r2 * w + c2 == nr * w + nc, 0 <= c2 < w, 0 <= nc < w;
                                }
                                if cell_key(c2, r2) == key {
                                    lemma_cell_key_injective(c2, r2, nc as int, nr as int);
                                }
                            }
                            assert(cheb(nc as int, nr as int, sc, sr) == d + 1);
                        }
                        if self.is_sea_cell(ncu, nru) {
                            proof {
                                assert forall|c2: int, r2: int| #[trigger] self.sea(c2, r2) implies !(cheb(c2, r2, sc, sr) <= d) by {
                                    if cheb(c2, r2, sc, sr) <= d {
                                        assert(vis_before.contains(cell_key(c2, r2)));
                                    }
                                }
                            }
                            return Some((ncu, nru));
                        }
                        let ghost qb = queue@;
                        let nd: u32 = d + 1;
                        queue.push_back((ncu, nru, nd));
                        proof {
                            assert(queue@[queue@.len() - 1] == (ncu, nru, nd));
                            assert forall|c2: int, r2: int| in_grid(w as int, h as int, c2, r2) && #[trigger] visited@.contains(cell_key(c2, r2))
                                implies {
                                &&& (c2 != sc || r2 != sr ==> !self.sea(c2, r2))
                                &&& (queued(queue@, c2, r2) || cheb(c2, r2, sc, sr) > maxr || expanded(self, visited@, c2, r2) || (c2 == c && r2 == r))
                            } by {
                                if cell_key(c2, r2) == key {
                                    lemma_cell_key_injective(c2, r2, nc as int, nr as int);
                                    assert(queue@[queue@.len() - 1].0 == c2 && queue@[queue@.len() - 1].1 == r2);
                                } else {
                                    assert(vis_before.contains(cell_key(c2, r2)));
                                    if queued(qb, c2, r2) {
                                        let i = choose|i: int| 0 <= i < qb.len() && (#[trigger] qb[i]).0 == c2 && qb[i].1 == r2;
                                        assert(queue@[i] == qb[i]);
                                    }
                                    if expanded(self, vis_before, c2, r2) {
                                        assert forall|ec: int, er: int|
                                            -1 <= ec <= 1 && -1 <= er <= 1 && !(ec == 0 && er == 0) && in_grid(w as int, h as int, c2 + ec, r2 + er)
                                            implies #[trigger] visited@.contains(cell_key(c2 + ec, r2 + er)) by {
                                            assert(vis_before.contains(cell_key(c2 + ec, r2 + er)));
                                        }
                                    }
                                }
                            }
                        }
                        k = k + 1;
                    }
                    proof {
                        assert forall|ec: int, er: int|
                            -1 <= ec <= 1 && -1 <= er <= 1 && !(ec == 0 && er == 0) && in_grid(w as int, h as int, c + ec, r + er)
                            implies #[trigger] visited@.contains(cell_key(c + ec, r + er)) by {
                            lemma_offsets_cover(ec, er);
                            let j = choose|j: int| 0 <= j < 8 && #[trigger] offset(j) == (ec, er);
                            assert(in_grid(w as int, h as int, c + offset(j).0, r + offset(j).1));
                        }
                        assert(expanded(self, visited@, c as int, r as int));
                        assert forall|i: int| 0 <= i < queue@.len() implies (#[trigger] queue@[i]).2 <= queue@[0].2 + 1 by {}
                    }
                },
            }
        }
    }
}

/// The little-endian `u32` header field `k` (0-based) of a land mask.
pub open spec fn header_field(b: Seq<u8>, k: int) -> u32 {
    le_u32_at(b, 4 * k)
}

/// Decode a land-mask file.
pub fn decode_land_mask(bytes: &[u8]) -> (r: Result<LandMaskFile, LandMaskError>)
    ensures
        bytes@.len() < 20 ==> r == Err::<LandMaskFile, LandMaskError>(LandMaskError::TooSmall),
        bytes@.len() >= 20 ==> {
            let w = header_field(bytes@, 0) as int;
            let h = header_field(bytes@, 1) as int;
            &&& (w > i32::MAX || h > i32::MAX || w * h > u32::MAX) ==> r == Err::<LandMaskFile, LandMaskError>(
                LandMaskError::TooLarge,
            )
            &&& (w <= i32::MAX && h <= i32::MAX && w * h <= u32::MAX && bytes@.len() - 20 != w * h) ==> r
                == Err::<LandMaskFile, LandMaskError>(
                LandMaskError::SizeMismatch { expected: (w * h) as usize, got: (bytes@.len() - 20) as usize },
            )
            &&& (w <= i32::MAX && h <= i32::MAX && w * h <= u32::MAX && bytes@.len() - 20 == w * h) ==> (r matches Ok(
                f,
            ) && f.grid.wf() && f.grid.width == w && f.grid.height == h && f.grid.data@ == bytes@.subrange(
                20,
                bytes@.len() as int,
            ) && f.origin_x_bits == header_field(bytes@, 2) && f.origin_y_bits == header_field(bytes@, 3)
                && f.cell_size_bits == header_field(bytes@, 4))
        },
{
    if bytes.len() < 20 {
        return Err(LandMaskError::TooSmall);
    }
    let width = u32_at(bytes, 0);
    let height = u32_at(bytes, 4);
    let ox = u32_at(bytes, 8);
    let oy = u32_at(bytes, 12);
    let cs = u32_at(bytes, 16);
    if width > 0x7fff_ffff || height > 0x7fff_ffff {
        return Err(LandMaskError::TooLarge);
    }
    proof {
        assert(width as u64 * height as u64 <= 0x7fff_ffff * 0x7fff_ffff) by (nonlinear_arith)
            requires width <= 0x7fff_ffff, height <= 0x7fff_ffff;
    }
    let cells: u64 = width as u64 * height as u64;
    if cells > 0xffff_ffff {
        return Err(LandMaskError::TooLarge);
    }
    if bytes.len() - 20 != cells as usize {
        return Err(LandMaskError::SizeMismatch { expected: cells as usize, got: bytes.len() - 20 });
    }
    let mut data: Vec<u8> = Vec::new();
    let mut i: usize = 20;
    while i < bytes.len()
        invariant
            20 <= i <= bytes@.len(),
            data@ == bytes@.subrange(20, i as int),
        decreases bytes@.len() - i,
    {
        data.push(bytes[i]);
        i = i + 1;
        assert(data@ =~= bytes@.subrange(20, i as int));
    }
    Ok(LandMaskFile {
        grid: LandGrid { data, width, height },
        origin_x_bits: ox,
        origin_y_bits: oy,
        cell_size_bits: cs,
    })
}

} // verus!
