//! Faction allegiance.

use vstd::prelude::*;

verus! {

/// Faction allegiance of a port or a ship's flag.
#[derive(Debug, Clone, Copy, PartialEq, Eq, Structural, PartialOrd, Ord, Hash)]
pub enum Faction {
    Spain,
    England,
    France,
    Netherlands,
    Free,
}

/// Number of factions.
pub const N_FACTIONS: usize = 5;

impl Faction {
    /// The Dutch flag under its older name.
    #[allow(non_upper_case_globals)]
    pub const Holland: Faction = Faction::Netherlands;

    /// The free (pirate) flag under its older name.
    #[allow(non_upper_case_globals)]
    pub const Pirate: Faction = Faction::Free;

    /// Position of the faction in every per-faction table.
    pub open spec fn ord_index(self) -> int {
        match self {
            Faction::Spain => 0,
            Faction::England => 1,
            Faction::France => 2,
            Faction::Netherlands => 3,
            Faction::Free => 4,
        }
    }

    /// Position of the faction in every per-faction table (`Faction as usize`).
    pub fn index(self) -> (i: usize)
        ensures
            i == self.ord_index(),
            i < N_FACTIONS,
    {
        match self {
            Faction::Spain => 0,
            Faction::England => 1,
            Faction::France => 2,
            Faction::Netherlands => 3,
            Faction::Free => 4,
        }
    }

    /// The faction at table position `i`.
    pub open spec fn from_index_spec(i: int) -> Faction {
        if i == 0 {
            Faction::Spain
        } else if i == 1 {
            Faction::England
        } else if i == 2 {
            Faction::France
        } else if i == 3 {
            Faction::Netherlands
        } else {
            Faction::Free
        }
    }

    /// The faction at table position `i`.
    pub fn from_index(i: usize) -> (f: Faction)
        requires
            i < N_FACTIONS,
        ensures
            f.ord_index() == i,
            f == Faction::from_index_spec(i as int),
    {
        if i == 0 {
            Faction::Spain
        } else if i == 1 {
            Faction::England
        } else if i == 2 {
            Faction::France
        } else if i == 3 {
            Faction::Netherlands
        } else {
            Faction::Free
        }
    }

    /// Display colour of the flag, as 8-bit RGB.
    pub fn color_rgb(&self) -> (c: (u8, u8, u8))
        ensures
            c == faction_color(*self),
    {
        match self {
            Faction::Spain => (255, 215, 0),
            Faction::England => (200, 50, 50),
            Faction::France => (70, 130, 255),
            Faction::Netherlands => (255, 140, 0),
            Faction::Free => (180, 180, 180),
        }
    }
}

/// Flag colours: Spanish gold, English red, French blue, Dutch orange,
/// and grey for the free flag.
pub open spec fn faction_color(f: Faction) -> (u8, u8, u8) {
    match f {
        Faction::Spain => (255u8, 215u8, 0u8),
        Faction::England => (200u8, 50u8, 50u8),
        Faction::France => (70u8, 130u8, 255u8),
        Faction::Netherlands => (255u8, 140u8, 0u8),
        Faction::Free => (180u8, 180u8, 180u8),
    }
}

/// Table positions identify factions.
pub proof fn lemma_faction_index_injective(a: Faction, b: Faction)
    ensures
        a.ord_index() == b.ord_index() <==> a == b,
{
}

} // verus!
