//! Calendar dates in the proleptic Gregorian calendar, modelled as plain
//! year / month / day fields with a day-count model (`day_index`) that maps
//! every valid date to the number of days since the first day of year 0.
//! All date arithmetic in the crate is stated over that model.
use vstd::prelude::*;

verus! {

/// Years the model covers. Navigation keeps dates of years 1..=9999; the
/// extra year on each side leaves room for calendar grids that spill over.
pub const MIN_YEAR: i32 = 0;

pub const MAX_YEAR: i32 = 10000;

#[derive(Clone, Copy, Debug, PartialEq, Eq, Structural)]
pub struct Date {
    pub year: i32,
    pub month: u32,
    pub day: u32,
}

pub open spec fn is_leap_year(y: int) -> bool {
    (y % 4 == 0 && y % 100 != 0) || y % 400 == 0
}

pub open spec fn days_in_month_of(y: int, m: int) -> int {
    if m == 2 {
        if is_leap_year(y) {
            29
        } else {
            28
        }
    } else if m == 4 || m == 6 || m == 9 || m == 11 {
        30
    } else {
        31
    }
}

pub open spec fn days_in_year_of(y: int) -> int {
    if is_leap_year(y) {
        366
    } else {
        365
    }
}

pub open spec fn valid_date(d: Date) -> bool {
    &&& MIN_YEAR <= d.year <= MAX_YEAR
    &&& 1 <= d.month <= 12
    &&& 1 <= d.day <= days_in_month_of(d.year as int, d.month as int)
}

/// Days in all years of the range `[0, y)`.
pub open spec fn days_before_year(y: int) -> int
    decreases y,
{
    if y <= 0 {
        0
    } else {
        days_before_year(y - 1) + days_in_year_of(y - 1)
    }
}

/// Days in the months `[1, m)` of year `y`.
pub open spec fn days_before_month(y: int, m: int) -> int
    decreases m,
{
    if m <= 1 {
        0
    } else {
        days_before_month(y, m - 1) + days_in_month_of(y, m - 1)
    }
}

/// The number of days from the first day of year 0 to `d`, the ground truth
/// that every arithmetic contract in this module speaks of.
pub open spec fn day_index(d: Date) -> int {
    days_before_year(d.year as int) + days_before_month(d.year as int, d.month as int) + d.day - 1
}

/// Day of the week, with 0 = Sunday .. 6 = Saturday. The offset 6 anchors
/// the cycle on the civil calendar: the first day of year 0 is a Saturday,
/// and `day_index` of that day is 0.
pub open spec fn weekday_of(d: Date) -> int {
    (day_index(d) + 6) % 7
}

pub open spec fn max_day_index() -> int {
    day_index(Date { year: MAX_YEAR, month: 12, day: 31 })
}

proof fn lemma_months_sum(y: int)
    ensures
        days_before_month(y, 13) == days_in_year_of(y),
{
    reveal_with_fuel(days_before_month, 13);
}

proof fn lemma_days_before_year_bound(y: int)
    requires
        0 <= y,
    ensures
        days_before_year(y) <= 366 * y,
        365 * y <= days_before_year(y),
    decreases y,
{
    if y > 0 {
        lemma_days_before_year_bound(y - 1);
    }
}

proof fn lemma_days_before_month_bound(y: int, m: int)
    requires
        1 <= m <= 13,
    ensures
        0 <= days_before_month(y, m) <= 31 * (m - 1),
    decreases m,
{
    if m > 1 {
        lemma_days_before_month_bound(y, m - 1);
    }
}

proof fn lemma_days_before_month_monotone(y: int, m1: int, m2: int)
    requires
        1 <= m1 <= m2 <= 13,
    ensures
        days_before_month(y, m1) <= days_before_month(y, m2),
    decreases m2 - m1,
{
    if m1 < m2 {
        lemma_days_before_month_monotone(y, m1, m2 - 1);
    }
}

proof fn lemma_days_before_year_monotone(y1: int, y2: int)
    requires
        0 <= y1 <= y2,
    ensures
        days_before_year(y1) + 365 * (y2 - y1) <= days_before_year(y2),
    decreases y2 - y1,
{
    if y1 < y2 {
        lemma_days_before_year_monotone(y1, y2 - 1);
    }
}

/// Within year `y`, a valid (month, day) pair maps into `[0, days_in_year_of(y))`.
proof fn lemma_index_in_year_range(d: Date)
    requires
        valid_date(d),
    ensures
        0 <= days_before_month(d.year as int, d.month as int) + d.day - 1 < days_in_year_of(
            d.year as int,
        ),
        days_before_month(d.year as int, d.month as int) + d.day - 1 < days_before_month(
            d.year as int,
            d.month as int + 1,
        ),
{
    let y = d.year as int;
    let m = d.month as int;
    lemma_days_before_month_bound(y, m);
    lemma_days_before_month_monotone(y, m + 1, 13);
    lemma_months_sum(y);
}

pub proof fn lemma_day_index_in_range(d: Date)
    requires
        valid_date(d),
    ensures
        0 <= day_index(d) <= max_day_index(),
        max_day_index() < 4_000_000,
{
    let y = d.year as int;
    let top = MAX_YEAR as int;
    lemma_index_in_year_range(d);
    lemma_days_before_year_bound(y);
    lemma_days_before_year_bound(top + 1);
    lemma_days_before_year_monotone(y + 1, top + 1);
    lemma_months_sum(y);
    lemma_months_sum(top);
    assert(days_before_year(y + 1) == days_before_year(y) + days_in_year_of(y));
    assert(days_before_year(top + 1) == days_before_year(top) + days_in_year_of(top));
    assert(max_day_index() == days_before_year(top) + days_before_month(top, 12) + 30);
    assert(days_before_month(top, 13) == days_before_month(top, 12) + 31);
}

/// Two valid dates with the same day count are the same date.
pub proof fn lemma_day_index_injective(d1: Date, d2: Date)
    requires
        valid_date(d1),
        valid_date(d2),
        day_index(d1) == day_index(d2),
    ensures
        d1 == d2,
{
    if d1 != d2 {
        if d1.year < d2.year || (d1.year == d2.year && d1.month < d2.month) || (d1.year == d2.year
            && d1.month == d2.month && d1.day < d2.day) {
            lemma_day_index_strictly_monotone(d1, d2);
        } else {
            lemma_day_index_strictly_monotone(d2, d1);
        }
    }
}

/// A date that is earlier in (year, month, day) order has a smaller day count.
pub proof fn lemma_day_index_strictly_monotone(d1: Date, d2: Date)
    requires
        valid_date(d1),
        valid_date(d2),
        d1.year < d2.year || (d1.year == d2.year && d1.month < d2.month) || (d1.year == d2.year
            && d1.month == d2.month && d1.day < d2.day),
    ensures
        day_index(d1) < day_index(d2),
{
    let y1 = d1.year as int;
    let y2 = d2.year as int;
    let m1 = d1.month as int;
    let m2 = d2.month as int;
    lemma_index_in_year_range(d1);
    lemma_index_in_year_range(d2);
    if y1 < y2 {
        lemma_days_before_year_monotone(y1 + 1, y2);
        assert(days_before_year(y1 + 1) == days_before_year(y1) + days_in_year_of(y1));
    } else if m1 < m2 {
        lemma_days_before_month_monotone(y1, m1 + 1, m2);
    }
}

/// The day after `d`, at the specification level.
pub open spec fn spec_next(d: Date) -> Date {
    if d.day < days_in_month_of(d.year as int, d.month as int) {
        Date { year: d.year, month: d.month, day: (d.day + 1) as u32 }
    } else if d.month < 12 {
        Date { year: d.year, month: (d.month + 1) as u32, day: 1 }
    } else {
        Date { year: (d.year + 1) as i32, month: 1, day: 1 }
    }
}

pub proof fn lemma_spec_next(d: Date)
    requires
        valid_date(d),
        day_index(d) < max_day_index(),
    ensures
        valid_date(spec_next(d)),
        day_index(spec_next(d)) == day_index(d) + 1,
{
    let y = d.year as int;
    if d.day < days_in_month_of(y, d.month as int) {
    } else if d.month < 12 {
    } else {
        lemma_months_sum(y);
        assert(days_before_year(y + 1) == days_before_year(y) + days_in_year_of(y));
        if d.year == MAX_YEAR {
            lemma_day_index_in_range(d);
            lemma_day_index_injective(d, Date { year: MAX_YEAR, month: 12, day: 31 });
        }
    }
}

/// The valid date with the given day count (the first model day for
/// counts at or below zero).
pub open spec fn date_of(idx: int) -> Date
    decreases idx,
{
    if idx <= 0 {
        Date { year: 0, month: 1, day: 1 }
    } else {
        spec_next(date_of(idx - 1))
    }
}

pub proof fn lemma_date_of(idx: int)
    requires
        0 <= idx <= max_day_index(),
    ensures
        valid_date(date_of(idx)),
        day_index(date_of(idx)) == idx,
    decreases idx,
{
    if idx == 0 {
    } else {
        lemma_date_of(idx - 1);
        lemma_spec_next(date_of(idx - 1));
    }
}

/// A valid date is determined by its day count.
pub proof fn lemma_date_of_unique(d: Date)
    requires
        valid_date(d),
    ensures
        d == date_of(day_index(d)),
{
    lemma_day_index_in_range(d);
    lemma_date_of(day_index(d));
    lemma_day_index_injective(d, date_of(day_index(d)));
}

pub fn leap_year(y: i32) -> (b: bool)
    requires
        0 <= y,
    ensures
        b == is_leap_year(y as int),
{
    (y % 4 == 0 && y % 100 != 0) || y % 400 == 0
}

/// Length of month `m` of year `y`, the 28/29/30/31 rule.
pub fn days_in_month(y: i32, m: u32) -> (n: u32)
    requires
        0 <= y,
        1 <= m <= 12,
    ensures
        n == days_in_month_of(y as int, m as int),
{
    if m == 2 {
        if leap_year(y) {
            29
        } else {
            28
        }
    } else if m == 4 || m == 6 || m == 9 || m == 11 {
        30
    } else {
        31
    }
}

impl Date {
    /// Builds the date `y-m-d` if it exists within the model's year range,
    /// and `None` exactly on the inputs that name no such date.
    pub fn new(year: i32, month: u32, day: u32) -> (r: Option<Date>)
        ensures
            r is Some <==> valid_date(Date { year, month, day }),
            r is Some ==> r->Some_0 == (Date { year, month, day }),
    {
        if MIN_YEAR <= year && year <= MAX_YEAR && 1 <= month && month <= 12 && 1 <= day && day
            <= days_in_month(year, month) {
            Some(Date { year, month, day })
        } else {
            None
        }
    }

    /// Whether the fields name a date the model holds.
    pub fn is_valid(&self) -> (b: bool)
        ensures
            b == valid_date(*self),
    {
        MIN_YEAR <= self.year && self.year <= MAX_YEAR && 1 <= self.month && self.month <= 12
            && 1 <= self.day && self.day <= days_in_month(self.year, self.month)
    }

    /// First day of this date's month.
    pub fn first_of_month(&self) -> (r: Date)
        requires
            valid_date(*self),
        ensures
            valid_date(r),
            r.year == self.year && r.month == self.month && r.day == 1,
    {
        Date { year: self.year, month: self.month, day: 1 }
    }

    /// Last day of this date's month.
    pub fn last_of_month(&self) -> (r: Date)
        requires
            valid_date(*self),
        ensures
            valid_date(r),
            r.year == self.year && r.month == self.month,
            r.day == days_in_month_of(self.year as int, self.month as int),
    {
        Date { year: self.year, month: self.month, day: days_in_month(self.year, self.month) }
    }
}

/// Days from the first day of year 0 to `d`, the executable face of `day_index`.
pub fn date_index(d: &Date) -> (i: u64)
    requires
        valid_date(*d),
    ensures
        i == day_index(*d),
{
    proof {
        lemma_day_index_in_range(*d);
    }
    let mut acc: u64 = 0;
    let mut y: i32 = 0;
    while y < d.year
        invariant
            valid_date(*d),
            0 <= y <= d.year,
            acc == days_before_year(y as int),
        decreases d.year - y,
    {
        proof {
            lemma_days_before_year_bound(y as int + 1);
        }
        acc = acc + if leap_year(y) {
            366
        } else {
            365
        };
        y = y + 1;
    }
    let mut m: u32 = 1;
    while m < d.month
        invariant
            valid_date(*d),
            1 <= m <= d.month,
            acc == days_before_year(d.year as int) + days_before_month(d.year as int, m as int),
        decreases d.month - m,
    {
        proof {
            lemma_days_before_year_bound(d.year as int);
            lemma_days_before_month_bound(d.year as int, m as int + 1);
        }
        acc = acc + days_in_month(d.year, m) as u64;
        m = m + 1;
    }
    acc + (d.day - 1) as u64
}

/// The day after `d`; the model's day count grows by exactly one.
pub fn next_day(d: &Date) -> (r: Date)
    requires
        valid_date(*d),
        day_index(*d) < max_day_index(),
    ensures
        valid_date(r),
        day_index(r) == day_index(*d) + 1,
{
    let y = d.year;
    let m = d.month;
    if d.day < days_in_month(y, m) {
        Date { year: y, month: m, day: d.day + 1 }
    } else if m < 12 {
        Date { year: y, month: m + 1, day: 1 }
    } else {
        proof {
            lemma_months_sum(y as int);
            assert(days_before_year(y as int + 1) == days_before_year(y as int) + days_in_year_of(
                y as int,
            ));
            if y == MAX_YEAR {
                lemma_day_index_in_range(*d);
                assert(day_index(*d) == max_day_index()) by {
                    lemma_day_index_injective(*d, Date { year: MAX_YEAR, month: 12, day: 31 });
                }
            }
        }
        Date { year: y + 1, month: 1, day: 1 }
    }
}

/// The day before `d`; the model's day count shrinks by exactly one.
pub fn prev_day(d: &Date) -> (r: Date)
    requires
        valid_date(*d),
        day_index(*d) > 0,
    ensures
        valid_date(r),
        day_index(r) == day_index(*d) - 1,
{
    let y = d.year;
    let m = d.month;
    if d.day > 1 {
        Date { year: y, month: m, day: d.day - 1 }
    } else if m > 1 {
        Date { year: y, month: m - 1, day: days_in_month(y, m - 1) }
    } else {
        proof {
            if y == 0 {
                assert(day_index(*d) == 0);
            }
            lemma_months_sum(y as int - 1);
            assert(days_before_year(y as int) == days_before_year(y as int - 1) + days_in_year_of(
                y as int - 1,
            ));
        }
        Date { year: y - 1, month: 12, day: 31 }
    }
}

/// `d` moved `n` days forward where that stays inside the model's range,
/// `None` where it would not.
pub fn try_add_days(d: &Date, n: u64) -> (r: Option<Date>)
    requires
        valid_date(*d),
    ensures
        r is Some <==> day_index(*d) + n <= max_day_index(),
        r is Some ==> valid_date(r->Some_0) && day_index(r->Some_0) == day_index(*d) + n,
{
    proof {
        lemma_day_index_in_range(*d);
    }
    let idx = date_index(d);
    let last = Date { year: MAX_YEAR, month: 12, day: 31 };
    let max = date_index(&last);
    if n > max - idx {
        return None;
    }
    let mut cur: Date = *d;
    let mut k: u64 = 0;
    while k < n
        invariant
            valid_date(cur),
            k <= n,
            day_index(cur) == day_index(*d) + k,
            day_index(*d) + n <= max_day_index(),
        decreases n - k,
    {
        cur = next_day(&cur);
        k = k + 1;
    }
    Some(cur)
}

/// `d` moved `n` days back where that stays inside the model's range,
/// `None` where it would not.
pub fn try_sub_days(d: &Date, n: u64) -> (r: Option<Date>)
    requires
        valid_date(*d),
    ensures
        r is Some <==> n <= day_index(*d),
        r is Some ==> valid_date(r->Some_0) && day_index(r->Some_0) == day_index(*d) - n,
{
    let idx = date_index(d);
    if n > idx {
        return None;
    }
    let mut cur: Date = *d;
    let mut k: u64 = 0;
    while k < n
        invariant
            valid_date(cur),
            k <= n <= day_index(*d),
            day_index(cur) == day_index(*d) - k,
        decreases n - k,
    {
        cur = prev_day(&cur);
        k = k + 1;
    }
    Some(cur)
}

/// Day of the week of `d`, 0 = Sunday .. 6 = Saturday.
pub fn weekday(d: &Date) -> (w: u32)
    requires
        valid_date(*d),
    ensures
        w == weekday_of(*d),
        w < 7,
{
    proof {
        lemma_day_index_in_range(*d);
    }
    let i = date_index(d);
    ((i + 6) % 7) as u32
}

} // verus!
