//! Per-good cargo slots.

use vstd::prelude::*;

verus! {

/// Number of goods a hold or a per-good table can address. Sized above
/// the starter catalogue (11 goods) so the catalogue can grow.
pub const CARGO_SLOTS: usize = 16;

} // verus!
