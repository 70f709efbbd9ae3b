//! Verified core of a seventeenth-century Atlantic trade and sailing simulation.

pub mod ai;
pub mod bt;
pub mod cargo;
pub mod coastline;
pub mod coastline_geom;
pub mod combat;
pub mod geo;
pub mod goods;
pub mod map;
pub mod market;
pub mod money;
pub mod nav;
pub mod navmesh;
pub mod policy;
pub mod pop;
pub mod port;
pub mod portroutes;
pub mod ship;
pub mod sim_rng;
pub mod shiptype;
pub mod shipyard;
pub mod spatial;
pub mod telemetry;
