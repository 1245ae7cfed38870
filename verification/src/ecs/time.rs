//! Calendar: the time of day and the season derived from the day count.
use vstd::prelude::*;

verus! {

/// Represents one of the four seasons, derived from day count.
#[derive(Debug, Clone, Copy, PartialEq, Eq, Structural)]
pub enum Season {
    /// Spring (days 0-29, 120-149, ...)
    Spring,
    /// Summer (days 30-59, 150-179, ...)
    Summer,
    /// Autumn (days 60-89, 180-209, ...)
    Autumn,
    /// Winter (days 90-119, 210-239, ...)
    Winter,
}

/// Days per season.
pub const SEASON_DAYS: u64 = 30;

/// Days per year (four seasons).
pub const YEAR_DAYS: u64 = 120;

/// The season of a day: 30-day seasons in a 120-day year, starting with
/// spring.
pub open spec fn season_of(day: int) -> Season {
    let d = day % 120;
    if d < 30 {
        Season::Spring
    } else if d < 60 {
        Season::Summer
    } else if d < 90 {
        Season::Autumn
    } else {
        Season::Winter
    }
}

impl Season {
    /// Returns the Season for a given day count.
    /// Uses 30-day seasons, 120-day year.
    pub fn from_day(day: u64) -> (r: Self)
        ensures
            r == season_of(day as int),
    {
        let idx = (day % YEAR_DAYS) / SEASON_DAYS;
        if idx == 0 {
            Season::Spring
        } else if idx == 1 {
            Season::Summer
        } else if idx == 2 {
            Season::Autumn
        } else {
            Season::Winter
        }
    }

    /// The season's lower-case name, as displayed.
    pub fn to_string(&self) -> (r: String)
        ensures
            *self == Season::Spring ==> r@ == "spring"@,
            *self == Season::Summer ==> r@ == "summer"@,
            *self == Season::Autumn ==> r@ == "autumn"@,
            *self == Season::Winter ==> r@ == "winter"@,
    {
        match self {
            Season::Spring => String::from_str("spring"),
            Season::Summer => String::from_str("summer"),
            Season::Autumn => String::from_str("autumn"),
            Season::Winter => String::from_str("winter"),
        }
    }
}

/// Seasons repeat every year: a day and the same day a year later fall in
/// the same season.
pub proof fn law_season_yearly(day: nat)
    ensures
        season_of(day + 120int) == season_of(day as int),
{
    assert((day + 120) % 120 == day % 120) by (nonlinear_arith);
}

/// Time of day
#[derive(Debug, Clone, Copy, PartialEq, Eq, Structural)]
pub struct TimeOfDay {
    /// Current hour.
    pub hour: u8,
    /// Current minute.
    pub minute: u8,
    /// Current day (0-indexed, incremented on hour wrap 23→0).
    pub day: u64,
}

/// Minutes since the start of day 0.
pub open spec fn total_minutes(t: TimeOfDay) -> int {
    t.day * 1440 + t.hour * 60 + t.minute
}

/// A clock reading: minute below 60, hour below 24.
pub open spec fn clock_ok(t: TimeOfDay) -> bool {
    t.minute < 60 && t.hour < 24
}

impl TimeOfDay {
    /// Midnight of day 0.
    pub fn new() -> (r: Self)
        ensures
            r.hour == 0 && r.minute == 0 && r.day == 0,
    {
        TimeOfDay { hour: 0, minute: 0, day: 0 }
    }

    /// Advance the clock by one minute: the minute wraps at 60 into the
    /// hour, the hour at 24 into the day.
    pub fn advance(&mut self)
        requires
            clock_ok(*old(self)),
            old(self).day < u64::MAX,
        ensures
            clock_ok(*final(self)),
            total_minutes(*final(self)) == total_minutes(*old(self)) + 1,
    {
        self.minute = self.minute + 1;
        if self.minute >= 60 {
            self.minute = 0;
            self.hour = self.hour + 1;
            if self.hour >= 24 {
                self.hour = 0;
                self.day = self.day + 1;
            }
        }
    }
}

} // verus!
