//! Calendar dates at day granularity, with the one-day-backward step that
//! the rate fallback search walks.

use vstd::prelude::*;

verus! {

/// A proleptic Gregorian calendar date with day granularity.
#[derive(Debug, PartialEq, Eq, Structural, Clone, Copy, Hash)]
pub struct Date {
    pub year: u32,
    pub month: u32,
    pub day: u32,
}

pub open spec fn spec_is_leap_year(y: int) -> bool {
    (y % 4 == 0 && y % 100 != 0) || y % 400 == 0
}

pub open spec fn spec_days_in_month(y: int, m: int) -> int {
    if m == 2 {
        if spec_is_leap_year(y) {
            29
        } else {
            28
        }
    } else if m == 4 || m == 6 || m == 9 || m == 11 {
        30
    } else {
        31
    }
}

impl Date {
    /// A well-formed calendar date: month and day in range for the year.
    pub open spec fn valid(self) -> bool {
        &&& 1 <= self.year <= 9999
        &&& 1 <= self.month <= 12
        &&& 1 <= self.day <= spec_days_in_month(self.year as int, self.month as int)
    }

    /// Chronological order, as lexicographic order on (year, month, day).
    pub open spec fn le(self, other: Date) -> bool {
        ||| self.year < other.year
        ||| (self.year == other.year && self.month < other.month)
        ||| (self.year == other.year && self.month == other.month && self.day <= other.day)
    }

    pub open spec fn lt(self, other: Date) -> bool {
        self.le(other) && self != other
    }

    /// The date one day earlier, or `None` at the first representable day.
    pub open spec fn spec_pred(self) -> Option<Date> {
        if self.day > 1 {
            Some(Date { year: self.year, month: self.month, day: (self.day - 1) as u32 })
        } else if self.month > 1 {
            Some(
                Date {
                    year: self.year,
                    month: (self.month - 1) as u32,
                    day: spec_days_in_month(self.year as int, self.month as int - 1) as u32,
                },
            )
        } else if self.year > 1 {
            Some(Date { year: (self.year - 1) as u32, month: 12, day: 31 })
        } else {
            None
        }
    }

    /// Validity-checked constructor; the only way callers outside the
    /// library obtain a `Date`.
    pub fn new(year: u32, month: u32, day: u32) -> (r: Option<Date>)
        ensures
            r is Some <==> (Date { year, month, day }).valid(),
            r is Some ==> r->Some_0 == (Date { year, month, day }),
    {
        let d = Date { year, month, day };
        if 1 <= year && year <= 9999 && 1 <= month && month <= 12 && 1 <= day && day
            <= days_in_month(year, month) {
            Some(d)
        } else {
            None
        }
    }

    /// Chronological comparison.
    pub fn le_date(&self, other: &Date) -> (r: bool)
        ensures
            r == self.le(*other),
    {
        self.year < other.year || (self.year == other.year && (self.month < other.month || (
        self.month == other.month && self.day <= other.day)))
    }

    /// Strict chronological comparison.
    pub fn lt_date(&self, other: &Date) -> (r: bool)
        ensures
            r == self.lt(*other),
    {
        self.year < other.year || (self.year == other.year && (self.month < other.month || (
        self.month == other.month && self.day < other.day)))
    }

    /// Step one day backward.
    pub fn pred(&self) -> (r: Option<Date>)
        requires
            self.valid(),
        ensures
            r == self.spec_pred(),
    {
        if self.day > 1 {
            Some(Date { year: self.year, month: self.month, day: self.day - 1 })
        } else if self.month > 1 {
            Some(
                Date {
                    year: self.year,
                    month: self.month - 1,
                    day: days_in_month(self.year, self.month - 1),
                },
            )
        } else if self.year > 1 {
            Some(Date { year: self.year - 1, month: 12, day: 31 })
        } else {
            None
        }
    }
}

/// Number of days in the given month of the given year.
pub fn days_in_month(year: u32, month: u32) -> (r: u32)
    ensures
        r == spec_days_in_month(year as int, month as int),
{
    if month == 2 {
        if (year % 4 == 0 && year % 100 != 0) || year % 400 == 0 {
            29
        } else {
            28
        }
    } else if month == 4 || month == 6 || month == 9 || month == 11 {
        30
    } else {
        31
    }
}

/// Stepping backward stays within valid dates and lands strictly earlier.
pub proof fn lemma_pred_valid(d: Date)
    requires
        d.valid(),
        d.spec_pred() is Some,
    ensures
        d.spec_pred()->Some_0.valid(),
        d.spec_pred()->Some_0.lt(d),
{
}

/// The predecessor is the greatest valid date strictly before `d`: the
/// backward walk visits every valid date, newest first, skipping none.
pub proof fn lemma_pred_greatest(d: Date, q: Date)
    requires
        d.valid(),
        q.valid(),
        d.spec_pred() is Some,
        q.lt(d),
    ensures
        q.le(d.spec_pred()->Some_0),
{
}

} // verus!
