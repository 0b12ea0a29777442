//! Civil dates and clock times as plain values.
//!
//! The range rules of the Gregorian calendar and of the 24-hour clock come
//! from the `time` crate; the types here hold what it accepted.

use vstd::prelude::*;

verus! {

/// A day of the proleptic Gregorian calendar.
#[derive(Debug, Clone, Copy, PartialEq, Eq, Structural)]
pub struct Date {
    pub year: i32,
    pub month: u8,
    pub day: u8,
}

/// A time of day with nanosecond resolution.
#[derive(Debug, Clone, Copy, PartialEq, Eq, Structural)]
pub struct Time {
    pub hour: u8,
    pub minute: u8,
    pub second: u8,
    pub nanosecond: u32,
}

/// A date and a time of day, without a time zone.
#[derive(Debug, Clone, Copy, PartialEq, Eq, Structural)]
pub struct PrimitiveDateTime {
    pub date: Date,
    pub time: Time,
}

/// Gregorian leap years: every fourth, but of the centuries only every fourth.
pub open spec fn leap_year(year: int) -> bool {
    year % 4 == 0 && (year % 100 != 0 || year % 400 == 0)
}

/// Number of days of a month.
pub open spec fn days_in_month(year: int, month: int) -> int {
    if month == 2 {
        if leap_year(year) {
            29
        } else {
            28
        }
    } else if month == 4 || month == 6 || month == 9 || month == 11 {
        30
    } else {
        31
    }
}

/// `year`-`month`-`day` is a day of the calendar.
pub open spec fn date_exists(year: int, month: int, day: int) -> bool {
    1 <= month <= 12 && 1 <= day <= days_in_month(year, month)
}

/// `hour`:`minute`:`second` is a time of day.
pub open spec fn clock_time_exists(hour: int, minute: int, second: int) -> bool {
    0 <= hour <= 23 && 0 <= minute <= 59 && 0 <= second <= 59
}

impl Date {
    /// The fields name a day of the calendar in the years -9999 to 9999.
    pub open spec fn wf(self) -> bool {
        &&& -9999 <= self.year <= 9999
        &&& date_exists(self.year as int, self.month as int, self.day as int)
    }

    /// The day `year`-`month`-`day`, if the calendar has it.
    pub fn from_calendar_date(year: i32, month: u8, day: u8) -> (r: Option<Date>)
        requires
            -9999 <= year <= 9999,
        ensures
            r is Some <==> date_exists(year as int, month as int, day as int),
            r matches Some(d) ==> d == (Date { year, month, day }) && d.wf(),
    {
        if month < 1 || month > 12 {
            return None;
        }
        calendar_date(year, month, day)
    }
}

impl Time {
    pub open spec fn wf(self) -> bool {
        self.hour < 24 && self.minute < 60 && self.second < 60 && self.nanosecond < 1_000_000_000
    }

    /// Midnight, the first instant of a day.
    pub fn midnight() -> (r: Time)
        ensures
            r == (Time { hour: 0, minute: 0, second: 0, nanosecond: 0 }),
            r.wf(),
    {
        Time { hour: 0, minute: 0, second: 0, nanosecond: 0 }
    }
}

impl PrimitiveDateTime {
    pub open spec fn wf(self) -> bool {
        self.date.wf() && self.time.wf()
    }

    pub fn new(date: Date, time: Time) -> (r: Self)
        ensures
            r.date == date && r.time == time,
    {
        PrimitiveDateTime { date, time }
    }

    /// 1980-01-01 00:00:00, the first instant the on-disk stamps can name.
    pub fn epoch() -> (r: Self)
        ensures
            r == epoch_datetime(),
            r.wf(),
    {
        PrimitiveDateTime {
            date: Date { year: 1980, month: 1, day: 1 },
            time: Time { hour: 0, minute: 0, second: 0, nanosecond: 0 },
        }
    }
}

/// 1980-01-01 00:00:00.
pub open spec fn epoch_datetime() -> PrimitiveDateTime {
    PrimitiveDateTime {
        date: Date { year: 1980, month: 1, day: 1 },
        time: Time { hour: 0, minute: 0, second: 0, nanosecond: 0 },
    }
}

/// `time::Date::from_calendar_date` on a month number 1 to 12: it accepts
/// exactly the days of the Gregorian calendar (within the crate's years) and
/// the date it makes reads back with the given year, month and day.
#[verifier::external_body]
fn calendar_date(year: i32, month: u8, day: u8) -> (r: Option<Date>)
    requires
        -9999 <= year <= 9999,
        1 <= month <= 12,
    ensures
        r is Some <==> date_exists(year as int, month as int, day as int),
        r matches Some(d) ==> d == (Date { year, month, day }),
{
    let month = time::Month::try_from(month).ok()?;
    let date = time::Date::from_calendar_date(year, month, day).ok()?;
    Some(Date { year: date.year(), month: u8::from(date.month()), day: date.day() })
}

/// `time::Time::from_hms`: accepts hours up to 23 and minutes and seconds up
/// to 59; the time it makes has no fraction of a second.
#[verifier::external_body]
pub(crate) fn clock_hms(hour: u8, minute: u8, second: u8) -> (r: Option<Time>)
    ensures
        r is Some <==> clock_time_exists(hour as int, minute as int, second as int),
        r matches Some(t) ==> t == (Time { hour, minute, second, nanosecond: 0 }),
{
    let t = time::Time::from_hms(hour, minute, second).ok()?;
    Some(Time { hour: t.hour(), minute: t.minute(), second: t.second(), nanosecond: t.nanosecond() })
}

/// `time::Time::from_hms_milli` on a millisecond count below 1000: accepts
/// hours up to 23 and minutes and seconds up to 59, and keeps the
/// milliseconds as nanoseconds.
#[verifier::external_body]
pub(crate) fn clock_hms_milli(hour: u8, minute: u8, second: u8, millisecond: u16) -> (r: Option<
    Time,
>)
    requires
        millisecond < 1000,
    ensures
        r is Some <==> clock_time_exists(hour as int, minute as int, second as int),
        r matches Some(t) ==> t == (Time {
            hour,
            minute,
            second,
            nanosecond: (millisecond * 1_000_000) as u32,
        }),
{
    let t = time::Time::from_hms_milli(hour, minute, second, millisecond).ok()?;
    Some(Time { hour: t.hour(), minute: t.minute(), second: t.second(), nanosecond: t.nanosecond() })
}

/// The days of the calendar, month by month: February has 29 days in every fourth
/// year, but of the years that end a century only in every fourth.
pub proof fn law_days_of_the_year(year: int, month: int, day: int)
    ensures
        ({
            let leap = year % 400 == 0 || (year % 4 == 0 && !(year % 100 == 0));
            let days = seq![
                31int,
                if leap {
                    29
                } else {
                    28
                },
                31,
                30,
                31,
                30,
                31,
                31,
                30,
                31,
                30,
                31,
            ];
            date_exists(year, month, day) <==> 1 <= month <= 12 && 1 <= day <= days[month - 1]
        }),
{
}

/// The times of a day have 24 hours of 60 minutes of 60 seconds.
pub proof fn law_times_of_the_day(hour: int, minute: int, second: int, n: int)
    requires
        n == 3600 * hour + 60 * minute + second,
        0 <= minute < 60,
        0 <= second < 60,
    ensures
        clock_time_exists(hour, minute, second) <==> 0 <= n < 86400,
{
}

} // verus!
