//! The global geodesic tile globe: tile counts, land/sea classification
//! and the bucket index used to find the tile nearest a direction.

pub mod classification;
pub mod index;
pub mod mesh;
