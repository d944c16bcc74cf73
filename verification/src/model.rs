//! Shifts and subjects: a shift is a named time interval on one
//! weekday; a subject is a requirement offering alternative shifts.

use vstd::prelude::*;
use crate::time::{Day, Duration};

verus! {

/// A specific, named time slot on one weekday that can satisfy a
/// subject-requirement.
#[derive(Debug, Eq, PartialEq, Hash)]
pub struct Shift {
    pub name: String,
    pub day: Day,
    pub duration: Duration,
}

impl Shift {
    /// Two shifts conflict when they fall on the same weekday and
    /// their intervals overlap.
    pub open spec fn spec_overlaps(self, other: Shift) -> bool {
        self.day == other.day && self.duration.spec_overlaps(other.duration)
    }

    /// Whether this shift conflicts with `shift`.
    pub fn is_overlapping(&self, shift: &Shift) -> (r: bool)
        requires
            self.duration.times_wf(),
            shift.duration.times_wf(),
        ensures
            r == self.spec_overlaps(*shift),
    {
        self.day == shift.day && self.duration.is_overlapping(&shift.duration)
    }

    /// A structurally equal copy of this shift.
    pub fn duplicate(&self) -> (r: Shift)
        ensures
            r == *self,
    {
        Shift { name: self.name.clone(), day: self.day, duration: self.duration }
    }
}

/// One slot in a student's schedule, to be filled by choosing exactly
/// one of the alternative shifts.
#[derive(Debug, Eq, PartialEq, Hash)]
pub struct Subject {
    pub name: String,
    pub available_shifts: Vec<Shift>,
}

} // verus!
