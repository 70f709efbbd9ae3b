//! Shipyard decisions.

use vstd::prelude::*;

verus! {

/// Why one ship type was built, or rejected, at a yard.
#[derive(Debug, Clone, Copy, PartialEq, Eq, Structural)]
pub enum TypeEvaluation {
    Built,
    BelowHurdle,
    InsufficientPortSilver,
    InsufficientInputs,
}

} // verus!
