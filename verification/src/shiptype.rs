//! Ship type identifiers.

use vstd::prelude::*;

verus! {

/// Stable identifier of a ship type: its position in the ship-type
/// catalogue.
#[derive(Copy, Clone, Eq, PartialEq, Hash, Debug, Structural)]
pub struct ShipTypeId(pub u8);

/// Catalogue position of the sloop.
pub const SLOOP: u8 = 0;
/// Catalogue position of the brigantine.
pub const BRIGANTINE: u8 = 1;
/// Catalogue position of the bark.
pub const BARK: u8 = 2;
/// Catalogue position of the fluyt.
pub const FLUYT: u8 = 3;
/// Catalogue position of the full-rigged ship.
pub const SHIP: u8 = 4;

} // verus!
