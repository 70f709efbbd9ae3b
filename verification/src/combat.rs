//! Boarding outcomes.

use vstd::prelude::*;

verus! {

/// Result of one boarding fight. The attacker wins only when its force
/// strictly exceeds the defender's; the losses are each side's dead,
/// never more than that side's crew.
#[derive(Debug, Clone, Copy, PartialEq, Eq, Structural)]
pub struct BoardingOutcome {
    pub attacker_wins: bool,
    pub attacker_losses: u16,
    pub defender_losses: u16,
}

} // verus!
