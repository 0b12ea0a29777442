//! Shared DOS-packed date/time codec (pure; no I/O).
//!
//! On disk the layout is little-endian:
//! - **time** `u16`: `seconds/2` (5) | `minutes` (6) | `hour` (5)
//! - **date** `u16`: `day` (5) | `month` (4) | `year - 1980` (7)
//!
//! exFAT packs date in the high half of a `u32` and time in the low half,
//! plus a 10 ms-increment byte for create/modified.

use vstd::prelude::*;

use crate::calendar::{clock_hms, clock_hms_milli, date_exists, Date, PrimitiveDateTime, Time};

verus! {

/// FAT/exFAT epoch — packed years count from 1980.
pub const EPOCH_YEAR: i32 = 1980;

/// The time of day a DOS time word stands for, if there is one.
pub open spec fn time_of_word(bits: int) -> Option<Time> {
    let second = 2 * (bits % 0x20);
    let minute = (bits / 0x20) % 0x40;
    let hour = bits / 0x800;
    if hour <= 23 && minute <= 59 && second <= 59 {
        Some(Time { hour: hour as u8, minute: minute as u8, second: second as u8, nanosecond: 0 })
    } else {
        None
    }
}

/// The day a DOS date word stands for, if there is one.
pub open spec fn date_of_word(bits: int) -> Option<Date> {
    let day = bits % 0x20;
    let month = (bits / 0x20) % 0x10;
    let year = EPOCH_YEAR + bits / 0x200;
    if date_exists(year, month, day) {
        Some(Date { year: year as i32, month: month as u8, day: day as u8 })
    } else {
        None
    }
}

/// The DOS time word of a time of day, to two seconds.
pub open spec fn word_of_time(t: Time) -> int {
    t.hour * 0x800 + t.minute * 0x20 + t.second / 2
}

/// The packed year field: years outside 1980..=2107 are clamped.
pub open spec fn packed_year(year: int) -> int {
    if year < EPOCH_YEAR {
        0
    } else if year > EPOCH_YEAR + 127 {
        127
    } else {
        year - EPOCH_YEAR
    }
}

/// The DOS date word of a day.
pub open spec fn word_of_date(d: Date) -> int {
    packed_year(d.year as int) * 0x200 + d.month * 0x20 + d.day
}

/// The instant a packed timestamp with its 10 ms increment stands for. The
/// increment supplies the odd second and the hundredths.
pub open spec fn datetime_of_stamp(ts: int, incr_10ms: int) -> Option<PrimitiveDateTime> {
    let second = 2 * (ts % 0x20) + incr_10ms / 100;
    let minute = (ts / 0x20) % 0x40;
    let hour = (ts / 0x800) % 0x20;
    if ts == 0 || hour > 23 || minute > 59 || second > 59 {
        None
    } else {
        match date_of_word(ts / 0x1_0000) {
            None => None,
            Some(date) => Some(
                PrimitiveDateTime {
                    date,
                    time: Time {
                        hour: hour as u8,
                        minute: minute as u8,
                        second: second as u8,
                        nanosecond: ((incr_10ms % 100) * 10_000_000) as u32,
                    },
                },
            ),
        }
    }
}

/// The packed timestamp of an instant, to two seconds.
pub open spec fn stamp_of_datetime(dt: PrimitiveDateTime) -> int {
    word_of_date(dt.date) * 0x1_0000 + word_of_time(dt.time)
}

/// The 10 ms increment of an instant: its odd second and its hundredths.
pub open spec fn increment_of_datetime(dt: PrimitiveDateTime) -> int {
    (dt.time.second % 2) * 100 + dt.time.nanosecond as int / 10_000_000
}

/// Decode a packed DOS time word into a [`Time`] (even seconds only).
pub fn decode_time(bits: u16) -> (r: Option<Time>)
    ensures
        r == time_of_word(bits as int),
        r matches Some(t) ==> t.wf(),
{
    let two_seconds: u8 = (bits % 0x20) as u8;
    let minute: u8 = ((bits / 0x20) % 0x40) as u8;
    let hour: u8 = (bits / 0x800) as u8;
    clock_hms(hour, minute, two_seconds * 2)
}

/// Decode a packed DOS date word into a [`Date`].
pub fn decode_date_word(bits: u16) -> (r: Option<Date>)
    ensures
        r == date_of_word(bits as int),
        r matches Some(d) ==> d.wf(),
{
    let day: u8 = (bits % 0x20) as u8;
    let month: u8 = ((bits / 0x20) % 0x10) as u8;
    let year: i32 = EPOCH_YEAR + (bits / 0x200) as i32;
    Date::from_calendar_date(year, month, day)
}

/// Encode a [`Time`] as a DOS time word (2-second resolution).
pub fn encode_time(time: Time) -> (r: u16)
    requires
        time.wf(),
    ensures
        r == word_of_time(time),
{
    let hour: u16 = time.hour as u16;
    let minute: u16 = time.minute as u16;
    let two_seconds: u16 = (time.second / 2) as u16;
    hour * 0x800 + minute * 0x20 + two_seconds
}

fn clamped_year(year: i32) -> (r: u16)
    ensures
        r == packed_year(year as int),
{
    if year < EPOCH_YEAR {
        0
    } else if year > EPOCH_YEAR + 127 {
        127
    } else {
        (year - EPOCH_YEAR) as u16
    }
}

/// Encode a [`Date`] as a DOS date word. Years outside 1980..=2107 are clamped.
pub fn encode_date_word(date: Date) -> (r: u16)
    requires
        date.wf(),
    ensures
        r == word_of_date(date),
{
    clamped_year(date.year) * 0x200 + date.month as u16 * 0x20 + date.day as u16
}

/// Decode a packed exFAT-style timestamp (`0` = "no timestamp") plus its
/// 10 ms increment.
pub fn decode_datetime(ts: u32, incr_10ms: u8) -> (r: Option<PrimitiveDateTime>)
    ensures
        r == datetime_of_stamp(ts as int, incr_10ms as int),
        r matches Some(dt) ==> dt.wf(),
{
    if ts == 0 {
        return None;
    }
    let two_seconds: u8 = (ts % 0x20) as u8;
    let minute: u8 = ((ts / 0x20) % 0x40) as u8;
    let hour: u8 = ((ts / 0x800) % 0x20) as u8;
    // The increment (0..=199) supplies the odd second plus centiseconds.
    let second: u8 = two_seconds * 2 + incr_10ms / 100;
    let milli: u16 = (incr_10ms % 100) as u16 * 10;
    match decode_date_word((ts / 0x1_0000) as u16) {
        None => None,
        Some(date) => match clock_hms_milli(hour, minute, second, milli) {
            None => None,
            Some(clock) => Some(PrimitiveDateTime::new(date, clock)),
        },
    }
}

/// Decode only the date portion of a packed `u32` timestamp.
pub fn decode_date(ts: u32) -> (r: Option<Date>)
    ensures
        r == (match datetime_of_stamp(ts as int, 0) {
            Some(dt) => Some(dt.date),
            None => None,
        }),
        r matches Some(d) ==> d.wf(),
{
    match decode_datetime(ts, 0) {
        Some(dt) => Some(dt.date),
        None => None,
    }
}

/// Encode a datetime into `(packed_timestamp, incr_10ms)`. Years outside
/// the representable 1980..=2107 window are clamped.
pub fn encode_datetime(dt: PrimitiveDateTime) -> (r: (u32, u8))
    requires
        dt.wf(),
    ensures
        r.0 == stamp_of_datetime(dt),
        r.1 == increment_of_datetime(dt),
{
    let ts: u32 = encode_date_word(dt.date) as u32 * 0x1_0000 + encode_time(dt.time) as u32;
    // Odd second (0/1 → 0/100) plus centiseconds; always ≤ 199, fits u8.
    let incr: u8 = (dt.time.second % 2) * 100 + (dt.time.nanosecond / 10_000_000) as u8;
    (ts, incr)
}

/// Encode a date at midnight (LastAccessed has no increment byte).
pub fn encode_date(date: Date) -> (r: u32)
    requires
        date.wf(),
    ensures
        r == word_of_date(date) * 0x1_0000,
{
    encode_datetime(PrimitiveDateTime::new(date, Time::midnight())).0
}

/// The instants the on-disk form can hold exactly: years 1980..=2107, whole
/// hundredths of a second.
pub open spec fn representable(dt: PrimitiveDateTime) -> bool {
    &&& dt.wf()
    &&& EPOCH_YEAR <= dt.date.year <= EPOCH_YEAR + 127
    &&& dt.time.nanosecond % 10_000_000 == 0
}

/// A date from the on-disk window survives packing into a date word.
pub proof fn law_date_word_round_trip(d: Date)
    requires
        d.wf(),
        EPOCH_YEAR <= d.year <= EPOCH_YEAR + 127,
    ensures
        date_of_word(word_of_date(d)) == Some(d),
        0 < word_of_date(d) < 0x1_0000,
{
    let y = d.year - EPOCH_YEAR;
    assert(word_of_date(d) == y * 0x200 + d.month * 0x20 + d.day);
    assert((y * 0x200 + d.month * 0x20 + d.day) / 0x200 == y);
    assert(((y * 0x200 + d.month * 0x20 + d.day) / 0x20) == y * 0x10 + d.month);
}

/// A time of day survives packing into a time word to an even second.
pub proof fn law_time_word_round_trip(t: Time)
    requires
        t.wf(),
    ensures
        time_of_word(word_of_time(t)) == Some(
            Time {
                hour: t.hour,
                minute: t.minute,
                second: (2 * (t.second as int / 2)) as u8,
                nanosecond: 0,
            },
        ),
        0 <= word_of_time(t) < 0x1_0000,
{
    let w = word_of_time(t);
    let s = t.second as int / 2;
    assert(w == t.hour * 0x800 + t.minute * 0x20 + s);
    assert(w / 0x20 == t.hour * 0x40 + t.minute);
    assert(w / 0x800 == t.hour);
}

/// An instant that the on-disk form can hold survives packing.
pub proof fn law_datetime_round_trip(dt: PrimitiveDateTime)
    requires
        representable(dt),
    ensures
        datetime_of_stamp(stamp_of_datetime(dt), increment_of_datetime(dt)) == Some(dt),
        stamp_of_datetime(dt) / 0x1_0000 == word_of_date(dt.date),
        stamp_of_datetime(dt) % 0x1_0000 == word_of_time(dt.time),
        0 < stamp_of_datetime(dt) <= u32::MAX,
        0 <= increment_of_datetime(dt) <= 199,
{
    law_date_word_round_trip(dt.date);
    law_time_word_round_trip(dt.time);
    lemma_stamp_halves(word_of_date(dt.date), word_of_time(dt.time));
    lemma_increment_parts(dt.time.second as int % 2, dt.time.nanosecond as int / 10_000_000);
}

/// The fields of a stamp are those of its time half and its date half.
proof fn lemma_stamp_halves(d: int, w: int)
    requires
        0 <= d,
        0 <= w < 0x1_0000,
    ensures
        (d * 0x1_0000 + w) / 0x1_0000 == d,
        (d * 0x1_0000 + w) % 0x1_0000 == w,
        (d * 0x1_0000 + w) % 0x20 == w % 0x20,
        ((d * 0x1_0000 + w) / 0x20) % 0x40 == (w / 0x20) % 0x40,
        ((d * 0x1_0000 + w) / 0x800) % 0x20 == w / 0x800,
{
    assert((d * 0x1_0000 + w) / 0x20 == d * 0x800 + w / 0x20);
    assert((d * 0x1_0000 + w) / 0x800 == d * 0x20 + w / 0x800);
}

proof fn lemma_increment_parts(o: int, h: int)
    requires
        0 <= o <= 1,
        0 <= h < 100,
    ensures
        (o * 100 + h) / 100 == o,
        (o * 100 + h) % 100 == h,
{
}

/// Whatever a timestamp decodes to can be written back exactly.
pub proof fn law_decoded_is_representable(ts: int, incr_10ms: int)
    requires
        0 <= ts <= u32::MAX,
        0 <= incr_10ms <= u8::MAX,
    ensures
        datetime_of_stamp(ts, incr_10ms) matches Some(dt) ==> representable(dt),
{
}

/// Two instants that the on-disk form can hold have the same stamp and the
/// same increment only if they are equal.
pub proof fn law_stamps_distinguish(a: PrimitiveDateTime, b: PrimitiveDateTime)
    requires
        representable(a),
        representable(b),
        stamp_of_datetime(a) == stamp_of_datetime(b),
        increment_of_datetime(a) == increment_of_datetime(b),
    ensures
        a == b,
{
    law_datetime_round_trip(a);
    law_datetime_round_trip(b);
}

} // verus!
