//! Dates as day numbers, and the date-times at which fixings are observed.
use vstd::prelude::*;

verus! {

/// The point in a trading day at which a fixing is observed.
#[derive(Clone, Copy, Debug, PartialEq, Eq, Structural)]
pub enum TimeOfDay {
    Open,
    Edsp,
    Close,
}

/// A date-time of a fixing: a day number and the time of day.
#[derive(Clone, Copy, Debug, PartialEq, Eq, Structural)]
pub struct DateTime {
    pub date: i32,
    pub time_of_day: TimeOfDay,
}

/// The half-open window `[from, to)` of days swept by a spot-date shift.
pub open spec fn in_window(d: DateTime, from: int, to: int) -> bool {
    from <= d.date && d.date < to
}

impl DateTime {
    pub fn new(date: i32, time_of_day: TimeOfDay) -> (r: DateTime)
        ensures
            r.date == date,
            r.time_of_day == time_of_day,
    {
        DateTime { date, time_of_day }
    }

    pub fn date(&self) -> (r: i32)
        ensures
            r == self.date,
    {
        self.date
    }

    /// Whether the day of this date-time lies in `[from, to)`.
    pub fn is_in_window(&self, from: i32, to: i32) -> (r: bool)
        ensures
            r == in_window(*self, from as int, to as int),
    {
        from <= self.date && self.date < to
    }
}

} // verus!
