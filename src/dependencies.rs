//! Which fixings each instrument of a portfolio depends on.
use vstd::prelude::*;
use crate::dates::DateTime;

verus! {

/// The fixing date-times that the instrument or underlying `id` depends on,
/// in the order in which they were recorded.
pub struct Dependency {
    pub id: String,
    pub fixings: Vec<DateTime>,
}

/// The dependency model of a valuation: one entry per tracked instrument, in
/// the order in which they are visited.
pub struct DependencyModel {
    pub entries: Vec<Dependency>,
}

impl DependencyModel {
    pub fn new() -> (r: DependencyModel)
        ensures
            r.entries@.len() == 0,
    {
        DependencyModel { entries: Vec::new() }
    }

    /// Records that `id` depends on the given fixings.
    pub fn add(&mut self, id: String, fixings: Vec<DateTime>)
        ensures
            final(self).entries@.len() == old(self).entries@.len() + 1,
            final(self).entries@.drop_last() == old(self).entries@,
            final(self).entries@.last().id == id,
            final(self).entries@.last().fixings == fixings,
    {
        self.entries.push(Dependency { id, fixings });
    }
}

} // verus!
