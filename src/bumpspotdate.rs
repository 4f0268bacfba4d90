//! The description of a spot-date move and of how unobserved fixings are valued.
use vstd::prelude::*;

verus! {

/// How a fixing that has not been observed yet is valued once the spot date
/// moves past it.
#[derive(Clone, Copy, Debug, PartialEq, Eq, Structural)]
pub enum SpotDynamics {
    /// The forward curve anchored at the new spot date, read at the fixing date.
    StickyForward,
    /// The current spot level of the underlying.
    StickySpot,
}

/// A move of the spot date to `spot_date`, with the policy for fixings that
/// fall due on the way.
#[derive(Clone, Copy, Debug, PartialEq, Eq, Structural)]
pub struct BumpSpotDate {
    pub spot_date: i32,
    pub spot_dynamics: SpotDynamics,
}

impl BumpSpotDate {
    pub fn new(spot_date: i32, spot_dynamics: SpotDynamics) -> (r: BumpSpotDate)
        ensures
            r.spot_date == spot_date,
            r.spot_dynamics == spot_dynamics,
    {
        BumpSpotDate { spot_date, spot_dynamics }
    }

    pub fn spot_date(&self) -> (r: i32)
        ensures
            r == self.spot_date,
    {
        self.spot_date
    }

    pub fn spot_dynamics(&self) -> (r: SpotDynamics)
        ensures
            r == self.spot_dynamics,
    {
        self.spot_dynamics
    }
}

} // verus!
