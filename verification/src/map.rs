//! The chart: its land/sea raster.

pub mod land;
