//! Decoding of the cosmetic coastline files: coast polylines and the
//! pre-triangulated land mesh.
//!
//! Both files are little-endian. A coordinate is an `f32` stored as its
//! four bytes; it is decoded here as its bit pattern (`u32`), which the
//! renderer turns back into the float.
//!
//! ```text
//! coastline:  u32 line_count, then per line: u32 n, n × (x, y)
//! land mesh:  u32 vertex_count, vertex_count × (x, y), u32 index_count, index_count × u32
//! ```
//! Bytes after the last record are ignored.

use vstd::prelude::*;

verus! {

/// Why a file could not be decoded.
#[derive(Debug, Clone, Copy, PartialEq, Eq, Structural)]
pub enum DecodeError {
    /// The file ended inside a record.
    UnexpectedEof,
}

/// A point as the bit patterns of its two `f32` coordinates `(x, y)`.
pub type PointBits = (u32, u32);

/// The little-endian `u32` in the four bytes of `b` from `i` on.
pub open spec fn le_u32_at(b: Seq<u8>, i: int) -> u32 {
    (b[i] as int + 256 * b[i + 1] as int + 65536 * b[i + 2] as int + 16777216 * b[i + 3] as int) as u32
}

/// `n` points stored back to back from byte `off` on.
pub open spec fn points_at(b: Seq<u8>, off: int, n: nat) -> Seq<PointBits> {
    Seq::new(n, |i: int| (le_u32_at(b, off + 8 * i), le_u32_at(b, off + 8 * i + 4)))
}

/// `n` little-endian `u32`s stored back to back from byte `off` on.
pub open spec fn u32s_at(b: Seq<u8>, off: int, n: nat) -> Seq<u32> {
    Seq::new(n, |i: int| le_u32_at(b, off + 4 * i))
}

/// The first `k` polylines of a coastline file whose line records start
/// at byte `off`, with the offset just past them; `None` if the file ends
/// inside one of them.
pub open spec fn lines_from(b: Seq<u8>, off: int, k: nat) -> Option<(Seq<Seq<PointBits>>, int)>
    decreases k,
{
    if k == 0 {
        Some((Seq::empty(), off))
    } else {
        match lines_from(b, off, (k - 1) as nat) {
            None => None,
            Some((ls, o)) => {
                if o + 4 > b.len() {
                    None
                } else {
                    let n = le_u32_at(b, o) as nat;
                    if o + 4 + 8 * n > b.len() {
                        None
                    } else {
                        Some((ls.push(points_at(b, o + 4, n)), o + 4 + 8 * n))
                    }
                }
            }
        }
    }
}

/// The polylines a coastline file holds, or `None` if it is truncated.
pub open spec fn decode_coastline(b: Seq<u8>) -> Option<Seq<Seq<PointBits>>> {
    if b.len() < 4 {
        None
    } else {
        match lines_from(b, 4, le_u32_at(b, 0) as nat) {
            None => None,
            Some((ls, _)) => Some(ls),
        }
    }
}

/// The vertices and triangle indices a land-mesh file holds, or `None`
/// if it is truncated.
pub open spec fn decode_land_mesh(b: Seq<u8>) -> Option<(Seq<PointBits>, Seq<u32>)> {
    if b.len() < 4 {
        None
    } else {
        let nv = le_u32_at(b, 0) as nat;
        let after_v: int = (4 + 8 * nv) as int;
        if after_v + 4 > b.len() {
            None
        } else {
            let ni = le_u32_at(b, after_v) as nat;
            if after_v + 4 + 4 * ni > b.len() {
                None
            } else {
                Some((points_at(b, 4, nv), u32s_at(b, after_v + 4, ni)))
            }
        }
    }
}

/// The views of a list of polylines.
pub open spec fn lines_view(v: Seq<Vec<PointBits>>) -> Seq<Seq<PointBits>> {
    v.map_values(|l: Vec<PointBits>| l@)
}

/// The little-endian `u32` at byte `i` of `buf`.
pub fn u32_at(buf: &[u8], i: usize) -> (v: u32)
    requires
        i + 4 <= buf@.len(),
    ensures
        v == le_u32_at(buf@, i as int),
{
    let b0: u32 = buf[i] as u32;
    let b1: u32 = buf[i + 1] as u32;
    let b2: u32 = buf[i + 2] as u32;
    let b3: u32 = buf[i + 3] as u32;
    b0 + 256 * b1 + 65536 * b2 + 16777216 * b3
}

/// Read the little-endian `u32` at `*cur` and step past it; fails, leaving
/// `*cur` as it was, if fewer than four bytes are left.
pub fn read_u32(buf: &[u8], cur: &mut usize) -> (r: Result<u32, DecodeError>)
    requires
        *old(cur) <= buf@.len(),
    ensures
        *old(cur) + 4 <= buf@.len() ==> r == Ok::<u32, DecodeError>(le_u32_at(buf@, *old(cur) as int))
            && *final(cur) == *old(cur) + 4,
        *old(cur) + 4 > buf@.len() ==> r == Err::<u32, DecodeError>(DecodeError::UnexpectedEof)
            && *final(cur) == *old(cur),
{
    if buf.len() - *cur < 4 {
        return Err(DecodeError::UnexpectedEof);
    }
    let v = u32_at(buf, *cur);
    *cur = *cur + 4;
    Ok(v)
}

/// Read `n` points from `*cur` on.
fn read_points(buf: &[u8], cur: &mut usize, n: u32) -> (r: Result<Vec<PointBits>, DecodeError>)
    requires
        *old(cur) <= buf@.len(),
    ensures
        *old(cur) + 8 * n <= buf@.len() ==> (r matches Ok(v) && v@ == points_at(buf@, *old(cur) as int, n as nat)
            && *final(cur) == *old(cur) + 8 * n),
        *old(cur) + 8 * n > buf@.len() ==> r == Err::<Vec<PointBits>, DecodeError>(DecodeError::UnexpectedEof),
{
    let ghost start: int = *cur as int;
    let mut pts: Vec<PointBits> = Vec::new();
    let mut j: u32 = 0;
    while j < n
        invariant
            j <= n,
            *cur == start + 8 * j,
            *cur <= buf@.len(),
            start == *old(cur),
            pts@ == points_at(buf@, start, j as nat),
        decreases n - j,
    {
        if buf.len() - *cur < 8 {
            assert(start + 8 * n > buf@.len()) by (nonlinear_arith)
                requires *cur == start + 8 * j, j < n, buf@.len() - *cur < 8;
            return Err(DecodeError::UnexpectedEof);
        }
        let x = u32_at(buf, *cur);
        let y = u32_at(buf, *cur + 4);
        pts.push((x, y));
        *cur = *cur + 8;
        j = j + 1;
        assert(pts@ =~= points_at(buf@, start, j as nat));
    }
    Ok(pts)
}

/// Coast polylines, each a list of points.
pub struct CoastlineMap {
    pub lines: Vec<Vec<PointBits>>,
}

impl CoastlineMap {
    /// No lines: what a missing file gives.
    pub fn empty() -> (m: CoastlineMap)
        ensures
            m.lines@.len() == 0,
    {
        CoastlineMap { lines: Vec::new() }
    }

    /// Decode a coastline file.
    pub fn from_bytes(buf: &[u8]) -> (r: Result<CoastlineMap, DecodeError>)
        ensures
            decode_coastline(buf@) is None ==> r == Err::<CoastlineMap, DecodeError>(DecodeError::UnexpectedEof),
            decode_coastline(buf@) matches Some(ls) ==> (r matches Ok(m) && lines_view(m.lines@) == ls),
    {
        let mut cur: usize = 0;
        let num_lines = match read_u32(buf, &mut cur) {
            Ok(v) => v,
            Err(e) => { return Err(e); },
        };
        let mut lines: Vec<Vec<PointBits>> = Vec::new();
        let mut k: u32 = 0;
        while k < num_lines
            invariant
                k <= num_lines,
                buf@.len() >= 4,
                num_lines == le_u32_at(buf@, 0),
                cur <= buf@.len(),
                lines_from(buf@, 4, k as nat) == Some((lines_view(lines@), cur as int)),
            decreases num_lines - k,
        {
            let ghost before = lines@;
            let ghost o = cur as int;
            let n = match read_u32(buf, &mut cur) {
                Ok(v) => v,
                Err(e) => {
                    assert(lines_from(buf@, 4, (k + 1) as nat) is None);
                    proof { lemma_lines_from_stays_none(buf@, 4, (k + 1) as nat, num_lines as nat); }
                    return Err(e);
                },
            };
            let line = match read_points(buf, &mut cur, n) {
                Ok(l) => l,
                Err(e) => {
                    assert(lines_from(buf@, 4, (k + 1) as nat) is None);
                    proof { lemma_lines_from_stays_none(buf@, 4, (k + 1) as nat, num_lines as nat); }
                    return Err(e);
                },
            };
            lines.push(line);
            k = k + 1;
            assert(lines_view(lines@) =~= lines_view(before).push(points_at(buf@, o + 4, n as nat)));
        }
        Ok(CoastlineMap { lines })
    }
}

/// Once a prefix of the line records fails to decode, every longer one does.
proof fn lemma_lines_from_stays_none(b: Seq<u8>, off: int, k: nat, m: nat)
    requires
        lines_from(b, off, k) is None,
        k <= m,
    ensures
        lines_from(b, off, m) is None,
    decreases m - k,
{
    if k < m {
        assert(lines_from(b, off, (k + 1) as nat) is None);
        lemma_lines_from_stays_none(b, off, (k + 1) as nat, m);
    }
}

/// A land mesh: a flat vertex list and a triangle index list, three
/// indices per triangle.
pub struct LandMesh {
    pub vertices: Vec<PointBits>,
    pub indices: Vec<u32>,
}

impl LandMesh {
    /// No vertices and no triangles: what a missing file gives.
    pub fn empty() -> (m: LandMesh)
        ensures
            m.vertices@.len() == 0,
            m.indices@.len() == 0,
    {
        LandMesh { vertices: Vec::new(), indices: Vec::new() }
    }

    /// Decode a land-mesh file.
    pub fn from_bytes(buf: &[u8]) -> (r: Result<LandMesh, DecodeError>)
        ensures
            decode_land_mesh(buf@) is None ==> r == Err::<LandMesh, DecodeError>(DecodeError::UnexpectedEof),
            decode_land_mesh(buf@) matches Some((vs, is)) ==> (r matches Ok(m) && m.vertices@ == vs
                && m.indices@ == is),
    {
        let mut cur: usize = 0;
        let nv = match read_u32(buf, &mut cur) {
            Ok(v) => v,
            Err(e) => { return Err(e); },
        };
        let vertices = match read_points(buf, &mut cur, nv) {
            Ok(v) => v,
            Err(e) => { return Err(e); },
        };
        let ni = match read_u32(buf, &mut cur) {
            Ok(v) => v,
            Err(e) => { return Err(e); },
        };
        let ghost start: int = cur as int;
        let mut indices: Vec<u32> = Vec::new();
        let mut j: u32 = 0;
        while j < ni
            invariant
                j <= ni,
                cur == start + 4 * j,
                cur <= buf@.len(),
                start == 8 + 8 * nv,
                buf@.len() >= start,
                nv == le_u32_at(buf@, 0),
                ni == le_u32_at(buf@, 4 + 8 * nv),
                vertices@ == points_at(buf@, 4, nv as nat),
                indices@ == u32s_at(buf@, start, j as nat),
            decreases ni - j,
        {
            let v = match read_u32(buf, &mut cur) {
                Ok(v) => v,
                Err(e) => {
                    assert(start + 4 * ni > buf@.len()) by (nonlinear_arith)
                        requires cur == start + 4 * j, j < ni, cur + 4 > buf@.len();
                    return Err(e);
                },
            };
            indices.push(v);
            j = j + 1;
            assert(indices@ =~= u32s_at(buf@, start, j as nat));
        }
        Ok(LandMesh { vertices, indices })
    }
}

} // verus!
