//! A window of days in which APOD publishes nothing new, announced ahead.
use vstd::prelude::*;
use crate::date::ApodDate;

verus! {

/// The pause covers the day: from its start up to its end, if it has one.
pub open spec fn pause_covers(p: Pause, d: ApodDate) -> bool {
    d@ >= p.start@ && match p.end {
        Some(end) => d@ <= end@,
        None => true,
    }
}

/// A pause from `start` to `end` (both included), or open-ended.
#[derive(Debug, Clone, PartialEq, Eq)]
pub struct Pause {
    pub start: ApodDate,
    pub end: Option<ApodDate>,
    pub reason: Option<String>,
}

impl Pause {
    pub fn new(start: ApodDate, end: Option<ApodDate>, reason: Option<String>) -> (p: Pause)
        ensures
            p.start == start,
            p.end == end,
            p.reason == reason,
    {
        Pause { start, end, reason }
    }

    /// Whether the pause covers a day.
    pub fn covers(&self, date: ApodDate) -> (b: bool)
        ensures
            b == pause_covers(*self, date),
    {
        date.days() >= self.start.days() && match self.end {
            Some(end) => date.days() <= end.days(),
            None => true,
        }
    }

    /// Whether the pause is on today.
    pub fn running_on(&self, today: ApodDate) -> (b: bool)
        ensures
            b == pause_covers(*self, today),
    {
        self.covers(today)
    }

    /// Whether the pause ends no earlier than it starts.
    pub fn well_formed(&self) -> (b: bool)
        ensures
            b == match self.end {
                Some(end) => end@ >= self.start@,
                None => true,
            },
    {
        match self.end {
            Some(end) => end.days() >= self.start.days(),
            None => true,
        }
    }
}

/// A well-formed pause covers its first day and its last, and no day before it starts.
pub proof fn law_pause_covers_its_ends(p: Pause, d: ApodDate)
    requires
        match p.end {
            Some(e) => e@ >= p.start@,
            None => true,
        },
    ensures
        pause_covers(p, p.start),
        p.end matches Some(e) ==> pause_covers(p, e),
        d@ < p.start@ ==> !pause_covers(p, d),
{
}

} // verus!
