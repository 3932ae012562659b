//! Proleptic Gregorian calendar dates in the range that `chrono::NaiveDate` covers.

use chrono::Datelike;
use vstd::prelude::*;

verus! {

/// Smallest year that `chrono::NaiveDate` represents.
pub const MIN_YEAR: i32 = -262143;

/// Largest year that `chrono::NaiveDate` represents.
pub const MAX_YEAR: i32 = 262142;

/// Leap years of the proleptic Gregorian calendar.
pub open spec fn is_leap_year(y: int) -> bool {
    (y % 4 == 0 && y % 100 != 0) || y % 400 == 0
}

/// Number of days of month `m` (1-based) in year `y`.
pub open spec fn month_length(y: int, m: int) -> int {
    if m == 2 {
        if is_leap_year(y) { 29 } else { 28 }
    } else if m == 4 || m == 6 || m == 9 || m == 11 {
        30
    } else {
        31
    }
}

/// A civil date `(year, month, day)` exists in the calendar.
pub open spec fn is_valid_ymd(d: (int, int, int)) -> bool {
    &&& 1 <= d.1 <= 12
    &&& 1 <= d.2 <= month_length(d.0, d.1)
}

/// The year lies in the range of dates that the library represents.
pub open spec fn year_in_range(y: int) -> bool {
    MIN_YEAR <= y <= MAX_YEAR
}

/// The day after `d`.
pub open spec fn next_day(d: (int, int, int)) -> (int, int, int) {
    if d.2 < month_length(d.0, d.1) {
        (d.0, d.1, d.2 + 1)
    } else if d.1 < 12 {
        (d.0, d.1 + 1, 1)
    } else {
        (d.0 + 1, 1, 1)
    }
}

/// The day before `d`.
pub open spec fn prev_day(d: (int, int, int)) -> (int, int, int) {
    if d.2 > 1 {
        (d.0, d.1, d.2 - 1)
    } else if d.1 > 1 {
        (d.0, d.1 - 1, month_length(d.0, d.1 - 1))
    } else {
        (d.0 - 1, 12, 31)
    }
}

/// The date `n` days after `d` (before it when `n` is negative).
pub open spec fn add_days(d: (int, int, int), n: int) -> (int, int, int)
    decreases (if n < 0 { -n } else { n }),
{
    if n == 0 {
        d
    } else if n > 0 {
        next_day(add_days(d, n - 1))
    } else {
        prev_day(add_days(d, n + 1))
    }
}

/// Strict chronological order of civil dates.
pub open spec fn date_lt(a: (int, int, int), b: (int, int, int)) -> bool {
    ||| a.0 < b.0
    ||| a.0 == b.0 && a.1 < b.1
    ||| a.0 == b.0 && a.1 == b.1 && a.2 < b.2
}

pub open spec fn date_le(a: (int, int, int), b: (int, int, int)) -> bool {
    date_lt(a, b) || a == b
}

/// A calendar date. Only values with `wf()` are produced by this library.
#[derive(Clone, Copy, Debug, PartialEq, Eq, Structural)]
pub struct Date {
    pub year: i32,
    pub month: u32,
    pub day: u32,
}

impl View for Date {
    type V = (int, int, int);

    open spec fn view(&self) -> (int, int, int) {
        (self.year as int, self.month as int, self.day as int)
    }
}

impl Date {
    /// The date exists and lies in the representable range.
    pub open spec fn wf(self) -> bool {
        is_valid_ymd(self@) && year_in_range(self.year as int)
    }
}

/// Whether `year` is a leap year.
pub fn leap_year(year: i32) -> (r: bool)
    ensures
        r == is_leap_year(year as int),
{
    let shifted: u64 = (year as i64 + 400 * 6_000_000) as u64;
    proof {
        let y = year as int;
        vstd::arithmetic::div_mod::lemma_mod_multiples_vanish(600_000_000, y, 4);
        vstd::arithmetic::div_mod::lemma_mod_multiples_vanish(24_000_000, y, 100);
        vstd::arithmetic::div_mod::lemma_mod_multiples_vanish(6_000_000, y, 400);
        assert(shifted as int == 4 * 600_000_000 + y);
        assert(shifted as int == 100 * 24_000_000 + y);
        assert(shifted as int == 400 * 6_000_000 + y);
    }
    (shifted % 4 == 0 && shifted % 100 != 0) || shifted % 400 == 0
}


/// Every month has between 28 and 31 days.
pub proof fn lemma_month_length_bounds(y: int, m: int)
    ensures
        28 <= month_length(y, m) <= 31,
        month_length(y, 12) == 31,
        month_length(y, 1) == 31,
{
}

/// The day after and the day before a valid date are valid dates, one undoes the other,
/// and they lie after and before it.
pub proof fn lemma_next_prev(d: (int, int, int))
    requires
        is_valid_ymd(d),
    ensures
        is_valid_ymd(next_day(d)),
        is_valid_ymd(prev_day(d)),
        prev_day(next_day(d)) == d,
        next_day(prev_day(d)) == d,
        date_lt(d, next_day(d)),
        date_lt(prev_day(d), d),
{
    lemma_month_length_bounds(d.0, d.1);
    lemma_month_length_bounds(d.0, d.1 - 1);
    lemma_month_length_bounds(d.0, d.1 + 1);
}

/// No valid date lies strictly between a date and the day after it.
pub proof fn lemma_next_day_is_successor(d: (int, int, int), k: (int, int, int))
    requires
        is_valid_ymd(d),
        is_valid_ymd(k),
        date_lt(d, k),
    ensures
        date_le(next_day(d), k),
{
    lemma_month_length_bounds(d.0, d.1);
}

/// Strict order is transitive.
pub proof fn lemma_date_lt_transitive(a: (int, int, int), b: (int, int, int), c: (int, int, int))
    requires
        date_lt(a, b),
        date_lt(b, c),
    ensures
        date_lt(a, c),
{
}

/// Moving by whole days keeps a date valid.
pub proof fn lemma_add_days_valid(d: (int, int, int), n: int)
    requires
        is_valid_ymd(d),
    ensures
        is_valid_ymd(add_days(d, n)),
    decreases (if n < 0 { -n } else { n }),
{
    if n > 0 {
        lemma_add_days_valid(d, n - 1);
        lemma_next_prev(add_days(d, n - 1));
    } else if n < 0 {
        lemma_add_days_valid(d, n + 1);
        lemma_next_prev(add_days(d, n + 1));
    }
}

/// One more day is the day after.
pub proof fn lemma_add_days_succ(d: (int, int, int), n: int)
    requires
        is_valid_ymd(d),
    ensures
        add_days(d, n + 1) == next_day(add_days(d, n)),
        add_days(d, n - 1) == prev_day(add_days(d, n)),
{
    if n < 0 {
        lemma_add_days_valid(d, n + 1);
        lemma_next_prev(add_days(d, n + 1));
    }
    if n > 0 {
        lemma_add_days_valid(d, n - 1);
        lemma_next_prev(add_days(d, n - 1));
    }
}

/// Moving by `a` days and then by `b` days moves by `a + b` days.
pub proof fn lemma_add_days_add(d: (int, int, int), a: int, b: int)
    requires
        is_valid_ymd(d),
    ensures
        add_days(add_days(d, a), b) == add_days(d, a + b),
    decreases (if b < 0 { -b } else { b }),
{
    lemma_add_days_valid(d, a);
    if b > 0 {
        lemma_add_days_add(d, a, b - 1);
        lemma_add_days_succ(d, a + b - 1);
    } else if b < 0 {
        lemma_add_days_add(d, a, b + 1);
        lemma_add_days_succ(d, a + b + 1);
    }
}

/// Moving forward gives a later date, moving backward an earlier one.
pub proof fn lemma_add_days_order(d: (int, int, int), n: int)
    requires
        is_valid_ymd(d),
    ensures
        n > 0 ==> date_lt(d, add_days(d, n)),
        n < 0 ==> date_lt(add_days(d, n), d),
    decreases (if n < 0 { -n } else { n }),
{
    if n > 0 {
        lemma_add_days_order(d, n - 1);
        lemma_add_days_valid(d, n - 1);
        lemma_next_prev(add_days(d, n - 1));
    } else if n < 0 {
        lemma_add_days_order(d, n + 1);
        lemma_add_days_valid(d, n + 1);
        lemma_next_prev(add_days(d, n + 1));
    }
}


/// Moving forward inside a month only changes the day.
pub proof fn lemma_add_days_within_month(d: (int, int, int), k: int)
    requires
        is_valid_ymd(d),
        0 <= k,
        d.2 + k <= month_length(d.0, d.1),
    ensures
        add_days(d, k) == (d.0, d.1, d.2 + k),
    decreases k,
{
    if k > 0 {
        lemma_add_days_within_month(d, k - 1);
    }
}

/// Moving backward inside a month only changes the day.
pub proof fn lemma_add_days_back_within_month(d: (int, int, int), k: int)
    requires
        is_valid_ymd(d),
        0 <= k < d.2,
    ensures
        add_days(d, -k) == (d.0, d.1, d.2 - k),
    decreases k,
{
    if k > 0 {
        lemma_add_days_back_within_month(d, k - 1);
    }
}

/// Going back `k` days from the first of a month, for `1 <= k <= 28`, lands in the
/// previous month.
pub proof fn lemma_back_from_month_start(d: (int, int, int), k: int)
    requires
        is_valid_ymd(d),
        d.2 == 1,
        1 <= k <= 28,
    ensures
        add_days(d, -k) == (if d.1 > 1 {
            (d.0, d.1 - 1, month_length(d.0, d.1 - 1) - k + 1)
        } else {
            (d.0 - 1, 12, 32 - k)
        }),
{
    lemma_next_prev(d);
    lemma_month_length_bounds(d.0, d.1 - 1);
    let p = prev_day(d);
    lemma_add_days_succ(d, 0);
    assert(add_days(d, -1) == p);
    lemma_add_days_back_within_month(p, k - 1);
    lemma_add_days_add(d, -1, -(k - 1));
}

/// A date reached by moving from `d` lies between two other dates so reached, when its
/// offset lies between theirs; so it is in range when they are.
pub proof fn lemma_add_days_between(d: (int, int, int), a: int, i: int, b: int)
    requires
        is_valid_ymd(d),
        a <= i <= b,
        year_in_range(add_days(d, a).0),
        year_in_range(add_days(d, b).0),
    ensures
        year_in_range(add_days(d, i).0),
{
    lemma_add_days_valid(d, a);
    lemma_add_days_valid(d, i);
    lemma_add_days_add(d, a, i - a);
    lemma_add_days_add(d, i, b - i);
    lemma_add_days_order(add_days(d, a), i - a);
    lemma_add_days_order(add_days(d, i), b - i);
}

/// A number that grows with the date, for bounding walks over days.
pub open spec fn date_rank(d: (int, int, int)) -> int {
    d.0 * 512 + d.1 * 32 + d.2
}

/// Later valid dates have larger ranks.
pub proof fn lemma_date_rank(a: (int, int, int), b: (int, int, int))
    requires
        is_valid_ymd(a),
        is_valid_ymd(b),
        date_lt(a, b),
    ensures
        date_rank(a) < date_rank(b),
{
    lemma_month_length_bounds(a.0, a.1);
    lemma_month_length_bounds(b.0, b.1);
}

/// The date with the given civil fields.
pub open spec fn date_of(t: (int, int, int)) -> Date {
    Date { year: t.0 as i32, month: t.1 as u32, day: t.2 as u32 }
}

/// Number of days of `month` in `year`.
pub fn days_in_month(year: i32, month: u32) -> (r: u32)
    requires
        1 <= month <= 12,
    ensures
        r == month_length(year as int, month as int),
{
    if month == 2 {
        if leap_year(year) { 29 } else { 28 }
    } else if month == 4 || month == 6 || month == 9 || month == 11 {
        30
    } else {
        31
    }
}

impl Date {
    /// The date with the given fields, if it exists and lies in the representable range
    /// (the same dates as `chrono::NaiveDate::from_ymd_opt`).
    pub fn from_ymd_opt(year: i32, month: u32, day: u32) -> (r: Option<Date>)
        ensures
            r == (if is_valid_ymd((year as int, month as int, day as int)) && year_in_range(year as int) {
                Some(Date { year, month, day })
            } else {
                None
            }),
    {
        if year < MIN_YEAR || year > MAX_YEAR || month < 1 || month > 12 || day < 1 {
            return None;
        }
        if day > days_in_month(year, month) {
            return None;
        }
        Some(Date { year, month, day })
    }

    /// Whether `self` comes strictly before `other`.
    pub fn is_before(&self, other: &Date) -> (r: bool)
        ensures
            r == date_lt(self@, other@),
    {
        self.year < other.year || (self.year == other.year && (self.month < other.month || (
        self.month == other.month && self.day < other.day)))
    }

    /// The day after this date, if it is representable.
    pub fn succ_opt(&self) -> (r: Option<Date>)
        requires
            self.wf(),
        ensures
            r is Some <==> year_in_range(next_day(self@).0),
            r matches Some(x) ==> x@ == next_day(self@) && x.wf(),
    {
        proof { lemma_next_prev(self@); }
        if self.day < days_in_month(self.year, self.month) {
            Some(Date { year: self.year, month: self.month, day: self.day + 1 })
        } else if self.month < 12 {
            Some(Date { year: self.year, month: self.month + 1, day: 1 })
        } else if self.year < MAX_YEAR {
            Some(Date { year: self.year + 1, month: 1, day: 1 })
        } else {
            None
        }
    }

    /// The day before this date, if it is representable.
    pub fn pred_opt(&self) -> (r: Option<Date>)
        requires
            self.wf(),
        ensures
            r is Some <==> year_in_range(prev_day(self@).0),
            r matches Some(x) ==> x@ == prev_day(self@) && x.wf(),
    {
        proof { lemma_next_prev(self@); }
        if self.day > 1 {
            Some(Date { year: self.year, month: self.month, day: self.day - 1 })
        } else if self.month > 1 {
            Some(Date { year: self.year, month: self.month - 1, day: days_in_month(self.year, self.month - 1) })
        } else if self.year > MIN_YEAR {
            Some(Date { year: self.year - 1, month: 12, day: 31 })
        } else {
            None
        }
    }

    /// The date `days` days later (earlier when negative), if it is representable.
    /// Calls `chrono::NaiveDate::checked_add_signed` with a whole number of days: chrono
    /// documents that it adds the days in the proleptic Gregorian calendar and returns
    /// `None` when the result leaves the range of `NaiveDate`.
    #[verifier::external_body]
    pub(crate) fn checked_add_days(&self, days: i32) -> (r: Option<Date>)
        requires
            self.wf(),
        ensures
            r is Some <==> year_in_range(add_days(self@, days as int).0),
            r matches Some(x) ==> x@ == add_days(self@, days as int),
    {
        let date = chrono::NaiveDate::from_ymd_opt(self.year, self.month, self.day)?;
        let moved = date.checked_add_signed(chrono::TimeDelta::days(days as i64))?;
        Some(Date { year: moved.year(), month: moved.month(), day: moved.day() })
    }
}

} // verus!
