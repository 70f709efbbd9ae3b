//! Catalogue positions of the starter goods.

use vstd::prelude::*;

verus! {

pub const PROVISIONS: u8 = 0;
pub const SUGAR: u8 = 1;
pub const MOLASSES: u8 = 2;
pub const RUM: u8 = 3;
pub const TOBACCO: u8 = 4;
pub const MANUFACTURES: u8 = 5;
pub const NAVAL_STORES: u8 = 6;
pub const SILVER: u8 = 7;
pub const ENSLAVED_PERSONS: u8 = 8;
/// Consumed by ships per broadside; produced at European powder mills.
pub const GUNPOWDER: u8 = 9;
/// Cast-iron shot, consumed alongside gunpowder.
pub const CANNON_SHOT: u8 = 10;

} // verus!
