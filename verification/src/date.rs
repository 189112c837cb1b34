//! Calendar dates as plain year, month and day values.

use vstd::prelude::*;

verus! {

/// A Gregorian calendar date, held as plain fields so that date comparison
/// is ordinary integer comparison.
#[derive(Clone, Copy, PartialEq, Eq, Structural, Debug)]
pub struct Date {
    pub year: u16,
    pub month: u8,
    pub day: u8,
}

/// Chronological order of two dates: year, then month, then day.
pub open spec fn date_lt(a: Date, b: Date) -> bool {
    ||| a.year < b.year
    ||| (a.year == b.year && a.month < b.month)
    ||| (a.year == b.year && a.month == b.month && a.day < b.day)
}

/// `a` is no later than `b`.
pub open spec fn date_le(a: Date, b: Date) -> bool {
    date_lt(a, b) || a == b
}

impl Date {
    /// A date is valid when its month and day lie in calendar range.
    /// Day upper bounds follow the Gregorian rules, with 29 February
    /// allowed exactly in leap years.
    pub open spec fn valid(self) -> bool {
        &&& 1 <= self.month <= 12
        &&& 1 <= self.day
        &&& self.day <= days_in_month(self.year as int, self.month as int)
    }

    /// True when `self` is strictly earlier than `other`.
    pub fn is_before(&self, other: &Date) -> (r: bool)
        ensures
            r == date_lt(*self, *other),
    {
        if self.year != other.year {
            self.year < other.year
        } else if self.month != other.month {
            self.month < other.month
        } else {
            self.day < other.day
        }
    }
}

/// Whether a year is a Gregorian leap year.
pub open spec fn is_leap_year(year: int) -> bool {
    year % 4 == 0 && (year % 100 != 0 || year % 400 == 0)
}

/// Number of days in a month of a given year.
pub open spec fn days_in_month(year: int, month: int) -> int {
    if month == 2 {
        if is_leap_year(year) {
            29
        } else {
            28
        }
    } else if month == 4 || month == 6 || month == 9 || month == 11 {
        30
    } else {
        31
    }
}

} // verus!
