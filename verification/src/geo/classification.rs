//! Land/sea classification of the globe's tiles.
//!
//! File format, little-endian:
//! ```text
//! u32  subdivisions
//! u32  tile_count
//! u8 × tile_count   // 1 = land, 0 = sea (any non-zero byte is land)
//! ```

use vstd::prelude::*;
use crate::coastline::{le_u32_at, u32_at};
use crate::geo::mesh::TileId;

verus! {

/// Why a classification file was refused.
#[derive(Debug, Clone, Copy, PartialEq, Eq, Structural)]
pub enum ClassificationError {
    /// Fewer than the eight header bytes.
    TooSmall,
    /// The header's tile count differs from the number of data bytes.
    SizeMismatch { header: u32, data_bytes: usize },
}

/// Land flag of every tile, by tile id.
pub struct LandSea {
    pub subdivisions: u32,
    pub is_land: Vec<bool>,
}

impl LandSea {
    /// Decode a classification file.
    pub fn from_bytes(bytes: &[u8]) -> (r: Result<LandSea, ClassificationError>)
        ensures
            bytes@.len() < 8 ==> r == Err::<LandSea, ClassificationError>(ClassificationError::TooSmall),
            bytes@.len() >= 8 && bytes@.len() - 8 != le_u32_at(bytes@, 4) ==> r == Err::<LandSea, ClassificationError>(
                ClassificationError::SizeMismatch { header: le_u32_at(bytes@, 4), data_bytes: (bytes@.len() - 8) as usize },
            ),
            bytes@.len() >= 8 && bytes@.len() - 8 == le_u32_at(bytes@, 4) ==> (r matches Ok(ls)
                && ls.subdivisions == le_u32_at(bytes@, 0)
                && ls.is_land@.len() == bytes@.len() - 8
                && forall|i: int| 0 <= i < ls.is_land@.len() ==> ls.is_land@[i] == (bytes@[i + 8] != 0)),
    {
        if bytes.len() < 8 {
            return Err(ClassificationError::TooSmall);
        }
        let subdivisions = u32_at(bytes, 0);
        let tile_count = u32_at(bytes, 4);
        if bytes.len() - 8 != tile_count as usize {
            return Err(ClassificationError::SizeMismatch { header: tile_count, data_bytes: bytes.len() - 8 });
        }
        let mut is_land: Vec<bool> = Vec::new();
        let mut i: usize = 8;
        while i < bytes.len()
            invariant
                8 <= i <= bytes@.len(),
                is_land@.len() == i - 8,
                forall|j: int| 0 <= j < is_land@.len() ==> is_land@[j] == (bytes@[j + 8] != 0),
            decreases bytes@.len() - i,
        {
            is_land.push(bytes[i] != 0);
            i = i + 1;
        }
        Ok(LandSea { subdivisions, is_land })
    }

    /// Whether `tile` is land.
    pub fn is_land(&self, tile: TileId) -> (b: bool)
        requires
            (tile as int) < self.is_land@.len(),
        ensures
            b == self.is_land@[tile as int],
    {
        self.is_land[tile as usize]
    }
}

} // verus!
