//! A captain's navigation goal.

use vstd::prelude::*;

verus! {

/// Where a captain wants to go, and what he believes about where he is.
/// `P` is a chart position and `S` a ship handle; the goal only carries
/// them.
#[derive(Debug, Clone)]
pub struct NavGoal<P, S> {
    /// Final goal; once cleared, the ship has arrived.
    pub destination: Option<P>,
    /// Index of the destination port, when the destination is one.
    pub dest_port: Option<usize>,
    /// The captain's dead-reckoning estimate of the ship's position.
    pub estimated_position: Option<P>,
    /// Day of the year of the last noon sight; 0 means never.
    pub last_noon_sight_day: u16,
    /// A pirate's current quarry.
    pub pursue_target: Option<S>,
    /// A merchant's current threat.
    pub flee_from: Option<S>,
}

impl<P, S> NavGoal<P, S> {
    /// Nothing set: no destination, no estimate, no quarry, no threat.
    pub open spec fn is_blank(self) -> bool {
        &&& self.destination is None
        &&& self.dest_port is None
        &&& self.estimated_position is None
        &&& self.last_noon_sight_day == 0
        &&& self.pursue_target is None
        &&& self.flee_from is None
    }

    /// A blank goal.
    pub fn new() -> (g: Self)
        ensures
            g.is_blank(),
    {
        NavGoal {
            destination: None,
            dest_port: None,
            estimated_position: None,
            last_noon_sight_day: 0,
            pursue_target: None,
            flee_from: None,
        }
    }

    /// A goal heading for `dest`, with nothing else set.
    pub fn with_destination(dest: P) -> (g: Self)
        ensures
            g.destination == Some(dest),
            g.dest_port is None,
            g.estimated_position is None,
            g.last_noon_sight_day == 0,
            g.pursue_target is None,
            g.flee_from is None,
    {
        NavGoal {
            destination: Some(dest),
            dest_port: None,
            estimated_position: None,
            last_noon_sight_day: 0,
            pursue_target: None,
            flee_from: None,
        }
    }

    /// Drop the destination (and its port); the position estimate, the
    /// last noon sight, the quarry and the threat are kept.
    pub fn clear(&mut self)
        ensures
            final(self).destination is None,
            final(self).dest_port is None,
            final(self).estimated_position == old(self).estimated_position,
            final(self).last_noon_sight_day == old(self).last_noon_sight_day,
            final(self).pursue_target == old(self).pursue_target,
            final(self).flee_from == old(self).flee_from,
    {
        self.destination = None;
        self.dest_port = None;
    }
}

impl<P, S> Default for NavGoal<P, S> {
    fn default() -> (g: Self)
        ensures
            g.is_blank(),
    {
        NavGoal::new()
    }
}

} // verus!
