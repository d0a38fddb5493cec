//! A plain calendar date: year, month and day held as numbers, with the
//! Gregorian validity rules spelled out.

use vstd::prelude::*;

use crate::PunchError;

verus! {

/// A calendar date. Construct through [`Date::from_ymd`], which checks the
/// calendar rules; a well-formed date satisfies [`Date::wf`].
#[derive(Clone, Copy, Debug, PartialEq, Eq, Hash, Structural)]
pub struct Date {
    pub year: i32,
    pub month: u32,
    pub day: u32,
}

pub open spec fn spec_is_leap_year(year: int) -> bool {
    year % 4 == 0 && (year % 100 != 0 || year % 400 == 0)
}

pub open spec fn spec_days_in_month(year: int, month: int) -> int {
    if month == 2 {
        if spec_is_leap_year(year) {
            29
        } else {
            28
        }
    } else if month == 4 || month == 6 || month == 9 || month == 11 {
        30
    } else {
        31
    }
}

pub fn is_leap_year(year: i32) -> (r: bool)
    requires
        0 <= year,
    ensures
        r == spec_is_leap_year(year as int),
{
    year % 4 == 0 && (year % 100 != 0 || year % 400 == 0)
}

pub fn days_in_month(year: i32, month: u32) -> (r: u32)
    requires
        0 <= year,
        1 <= month <= 12,
    ensures
        r == spec_days_in_month(year as int, month as int),
{
    if month == 2 {
        if is_leap_year(year) {
            29
        } else {
            28
        }
    } else if month == 4 || month == 6 || month == 9 || month == 11 {
        30
    } else {
        31
    }
}

impl Date {
    /// A valid Gregorian date within the year range the text format can
    /// carry.
    pub open spec fn wf(self) -> bool {
        &&& 0 <= self.year <= 9999
        &&& 1 <= self.month <= 12
        &&& 1 <= self.day <= spec_days_in_month(self.year as int, self.month as int)
    }

    /// Chronological order on dates.
    pub open spec fn spec_lt(self, other: Date) -> bool {
        ||| self.year < other.year
        ||| (self.year == other.year && self.month < other.month)
        ||| (self.year == other.year && self.month == other.month && self.day < other.day)
    }

    /// Checked construction: succeeds exactly on well-formed dates.
    pub fn from_ymd(year: i32, month: u32, day: u32) -> (r: Result<Date, PunchError>)
        ensures
            (r is Ok) <==> (Date { year, month, day }).wf(),
            (r is Ok) ==> r->Ok_0 == (Date { year, month, day }),
            (r is Err) ==> r->Err_0 == PunchError::InvalidCalendarValue,
    {
        if 0 <= year && year <= 9999 && 1 <= month && month <= 12 && 1 <= day && day
            <= days_in_month(year, month) {
            Ok(Date { year, month, day })
        } else {
            Err(PunchError::InvalidCalendarValue)
        }
    }

    pub fn is_before(&self, other: &Date) -> (r: bool)
        ensures
            r == self.spec_lt(*other),
    {
        self.year < other.year || (self.year == other.year && (self.month < other.month || (
        self.month == other.month && self.day < other.day)))
    }

    /// The calendar day before this one.
    pub open spec fn spec_pred(self) -> Date {
        if self.day > 1 {
            Date { year: self.year, month: self.month, day: (self.day - 1) as u32 }
        } else if self.month > 1 {
            Date {
                year: self.year,
                month: (self.month - 1) as u32,
                day: spec_days_in_month(self.year as int, self.month - 1) as u32,
            }
        } else {
            Date { year: (self.year - 1) as i32, month: 12, day: 31 }
        }
    }

    /// The previous calendar day; fails only at the very first
    /// representable date.
    pub fn pred(&self) -> (r: Result<Date, PunchError>)
        requires
            self.wf(),
        ensures
            (r is Err) <==> (self.year == 0 && self.month == 1 && self.day == 1),
            (r is Ok) ==> r->Ok_0.wf() && r->Ok_0.spec_lt(*self) && r->Ok_0 == self.spec_pred(),
            (r is Err) ==> r->Err_0 == PunchError::InvalidCalendarValue,
    {
        if self.day > 1 {
            Ok(Date { year: self.year, month: self.month, day: self.day - 1 })
        } else if self.month > 1 {
            Ok(
                Date {
                    year: self.year,
                    month: self.month - 1,
                    day: days_in_month(self.year, self.month - 1),
                },
            )
        } else if self.year > 0 {
            Ok(Date { year: self.year - 1, month: 12, day: 31 })
        } else {
            Err(PunchError::InvalidCalendarValue)
        }
    }
}

} // verus!
