//! Calendar dates as day numbers.
//!
//! A date is held as its day number in the proleptic Gregorian calendar,
//! counting from day 1 = January 1 of year 1, which falls on a Monday.
//! This is the same numbering that calendar libraries expose as "days from
//! the common era", so the surrounding application can convert losslessly.

use vstd::prelude::*;

verus! {

/// Smallest day number a `Date` may hold (fits well inside `i64` arithmetic).
pub const MIN_DAYS: i64 = -2147483648;

/// Largest day number a `Date` may hold.
pub const MAX_DAYS: i64 = 2147483647;

/// A calendar date, held as a day number (day 1 = January 1 of year 1,
/// a Monday).
#[derive(Clone, Copy, PartialEq, Eq, Structural, Debug)]
pub struct Date {
    pub days: i64,
}

impl Date {
    /// The day number lies in the range a 32-bit day count can hold, so that
    /// small offsets (the next day, the bounds of a week) never overflow.
    pub open spec fn wf(self) -> bool {
        MIN_DAYS <= self.days <= MAX_DAYS
    }

    /// Index of the date's weekday, counting Monday as 0 and Sunday as 6.
    pub open spec fn spec_weekday_from_monday(self) -> int {
        (self.days - 1) % 7
    }

    /// The Monday on or before this date.
    pub open spec fn spec_week_start(self) -> int {
        self.days - self.spec_weekday_from_monday()
    }

    /// The Sunday on or after this date.
    pub open spec fn spec_week_end(self) -> int {
        self.spec_week_start() + 6
    }

    /// The date one day later.
    pub fn succ(self) -> (r: Date)
        requires
            self.wf(),
        ensures
            r.days == self.days + 1,
    {
        Date { days: self.days + 1 }
    }

    /// Index of the date's weekday, counting Monday as 0 and Sunday as 6.
    pub fn weekday_from_monday(self) -> (r: i64)
        requires
            self.wf(),
        ensures
            r == self.spec_weekday_from_monday(),
            0 <= r <= 6,
    {
        // Shift by a multiple of 7 large enough to make the dividend
        // non-negative, so that truncating and Euclidean remainder agree.
        let shifted: i64 = self.days - 1 + 2147483653;
        proof {
            assert(2147483653int % 7 == 0);
            lemma_mod_shift_multiple(self.days - 1, 2147483653, 7);
        }
        shifted % 7
    }

    /// The Monday of the week this date falls in.
    pub fn week_start(self) -> (r: Date)
        requires
            self.wf(),
        ensures
            r.days == self.spec_week_start(),
    {
        let wd = self.weekday_from_monday();
        Date { days: self.days - wd }
    }

    /// The Sunday of the week this date falls in.
    pub fn week_end(self) -> (r: Date)
        requires
            self.wf(),
        ensures
            r.days == self.spec_week_end(),
    {
        let start = self.week_start();
        Date { days: start.days + 6 }
    }

    /// Whether this date lies in the Monday-to-Sunday week of `today`,
    /// bounds inclusive.
    pub open spec fn spec_in_week_of(self, today: Date) -> bool {
        today.spec_week_start() <= self.days <= today.spec_week_end()
    }

    /// Whether this date lies in the Monday-to-Sunday week of `today`.
    pub fn in_week_of(self, today: Date) -> (r: bool)
        requires
            self.wf(),
            today.wf(),
        ensures
            r == self.spec_in_week_of(today),
    {
        let start = today.week_start();
        let end = today.week_end();
        start.days <= self.days && self.days <= end.days
    }
}

/// Adding a multiple of the modulus to the dividend leaves the remainder
/// unchanged.
proof fn lemma_mod_shift_multiple(a: int, k: int, m: int)
    requires
        m > 0,
        k % m == 0,
    ensures
        (a + k) % m == a % m,
{
    vstd::arithmetic::div_mod::lemma_add_mod_noop(a, k, m);
    vstd::arithmetic::div_mod::lemma_mod_twice(a, m);
}

} // verus!
