//! Clock times, half-open daily time intervals, and the five weekdays.

use vstd::prelude::*;

verus! {

/// The five weekdays on which classes can be scheduled, in the fixed
/// order used for iteration and display.
#[derive(Debug, Eq, PartialEq, Structural, Hash, Copy, Clone)]
pub enum Day {
    Monday,
    Tuesday,
    Wednesday,
    Thursday,
    Friday,
}

impl Day {
    /// The weekdays in their fixed order.
    pub open spec fn all() -> Seq<Day> {
        seq![Day::Monday, Day::Tuesday, Day::Wednesday, Day::Thursday, Day::Friday]
    }

    /// The weekdays in their fixed order, for iteration.
    pub fn in_order() -> (r: Vec<Day>)
        ensures
            r@ == Day::all(),
    {
        let r = vec![Day::Monday, Day::Tuesday, Day::Wednesday, Day::Thursday, Day::Friday];
        proof {
            assert(r@ =~= Day::all());
        }
        r
    }
}

/// A clock time. Hour and minute are not validated here: out-of-range
/// values are tolerated and simply mean their minute count.
#[derive(Debug, Eq, PartialEq, Structural, Hash, Copy, Clone)]
pub struct Hour {
    pub hour: u16,
    pub minute: u16,
}

impl Hour {
    /// Minutes since midnight, as a mathematical integer.
    pub open spec fn spec_minutes(self) -> int {
        self.hour * 60 + self.minute
    }

    /// The minute count fits the machine arithmetic below.
    pub open spec fn wf(self) -> bool {
        self.spec_minutes() <= u16::MAX
    }

    /// Minutes since midnight.
    pub fn to_minutes(self) -> (r: u16)
        requires
            self.wf(),
        ensures
            r == self.spec_minutes(),
    {
        self.hour * 60 + self.minute
    }
}

/// A half-open time interval on a single day, from `start` (inclusive)
/// to `end` (exclusive).
#[derive(Debug, Eq, PartialEq, Structural, Hash, Copy, Clone)]
pub struct Duration {
    pub start: Hour,
    pub end: Hour,
}

impl Duration {
    /// Both endpoints have representable minute counts.
    pub open spec fn times_wf(self) -> bool {
        self.start.wf() && self.end.wf()
    }

    /// A well-formed interval: representable endpoints that do not run
    /// backwards.
    pub open spec fn wf(self) -> bool {
        self.times_wf() && self.start.spec_minutes() <= self.end.spec_minutes()
    }

    /// Length of the interval in minutes, as a mathematical integer.
    pub open spec fn spec_minutes(self) -> int {
        self.end.spec_minutes() - self.start.spec_minutes()
    }

    /// Length of the interval in minutes.
    pub fn minutes(&self) -> (r: u16)
        requires
            self.wf(),
        ensures
            r == self.spec_minutes(),
    {
        self.end.to_minutes() - self.start.to_minutes()
    }

    /// The bounding union of two intervals: from the earlier start to
    /// the later end. For disjoint intervals this spans the gap as well.
    pub open spec fn spec_merge(self, other: Duration) -> Duration {
        Duration {
            start: if self.start.spec_minutes() <= other.start.spec_minutes() {
                self.start
            } else {
                other.start
            },
            end: if self.end.spec_minutes() >= other.end.spec_minutes() {
                self.end
            } else {
                other.end
            },
        }
    }

    /// Bounding union: the interval from the earlier of the two starts
    /// to the later of the two ends.
    pub fn merge(&self, duration: &Duration) -> (r: Duration)
        requires
            self.times_wf(),
            duration.times_wf(),
        ensures
            r == self.spec_merge(*duration),
            r.times_wf(),
            self.wf() && duration.wf() ==> r.wf(),
    {
        let start = if self.start.to_minutes() <= duration.start.to_minutes() {
            self.start
        } else {
            duration.start
        };
        let end = if self.end.to_minutes() >= duration.end.to_minutes() {
            self.end
        } else {
            duration.end
        };
        Duration { start, end }
    }

    /// Half-open overlap: the intervals share at least one instant.
    /// Touching endpoints do not overlap.
    pub open spec fn spec_overlaps(self, other: Duration) -> bool {
        self.start.spec_minutes() < other.end.spec_minutes()
            && self.end.spec_minutes() > other.start.spec_minutes()
    }

    /// Whether the two intervals overlap under half-open semantics.
    pub fn is_overlapping(&self, duration: &Duration) -> (r: bool)
        requires
            self.times_wf(),
            duration.times_wf(),
        ensures
            r == self.spec_overlaps(*duration),
    {
        self.start.to_minutes() < duration.end.to_minutes()
            && self.end.to_minutes() > duration.start.to_minutes()
    }
}

} // verus!
