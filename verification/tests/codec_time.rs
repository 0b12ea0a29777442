//! DOS-packed timestamps.

use unifat::calendar::{Date, PrimitiveDateTime, Time};
use unifat::codec::time::{
    decode_date, decode_date_word, decode_datetime, decode_time, encode_date, encode_date_word,
    encode_datetime, encode_time,
};
use unifat::entry_times::EntryTimes;

fn date(year: i32, month: u8, day: u8) -> Date {
    Date::from_calendar_date(year, month, day).unwrap()
}

fn clock(hour: u8, minute: u8, second: u8, nanosecond: u32) -> Time {
    Time {
        hour,
        minute,
        second,
        nanosecond,
    }
}

#[test]
fn datetime_round_trips() {
    let dt = PrimitiveDateTime::new(date(2021, 7, 8), clock(13, 37, 42, 500_000_000));
    let (ts, incr) = encode_datetime(dt);
    assert_eq!(decode_datetime(ts, incr), Some(dt));
}

#[test]
fn zero_is_none() {
    assert_eq!(decode_datetime(0, 0), None);
}

#[test]
fn date_round_trips() {
    let d = date(2019, 3, 14);
    assert_eq!(decode_date(encode_date(d)), Some(d));
}

#[test]
fn year_clamps_below_epoch() {
    let d = date(1970, 1, 1);
    let bits = encode_date_word(d);
    // year field = 0 → 1980
    assert_eq!(decode_date_word(bits).map(|x| x.year), Some(1980));
}

#[test]
fn time_date_words_round_trip() {
    let t = clock(13, 37, 42, 0);
    let d = date(2021, 7, 8);
    // even-second resolution
    assert_eq!(decode_time(encode_time(t)), Some(clock(13, 37, 42, 0)));
    assert_eq!(decode_date_word(encode_date_word(d)), Some(d));
}

#[test]
fn packed_words_have_the_documented_bits() {
    // 2021-07-08: (41 << 9) | (7 << 5) | 8.
    assert_eq!(encode_date_word(date(2021, 7, 8)), 0x52E8);
    // 13:37:42: (13 << 11) | (37 << 5) | 21.
    assert_eq!(encode_time(clock(13, 37, 42, 0)), 0x6CB5);
    let dt = PrimitiveDateTime::new(date(2021, 7, 8), clock(13, 37, 43, 990_000_000));
    assert_eq!(encode_datetime(dt), (0x52E8_6CB5, 199));
}

#[test]
fn impossible_fields_do_not_decode() {
    // Month 0 and 13, day 0, 31 April, 29 February outside leap years.
    assert_eq!(decode_date_word(0x52E8 & !0x01E0), None);
    assert_eq!(decode_date_word((41 << 9) | (13 << 5) | 1), None);
    assert_eq!(decode_date_word((41 << 9) | (7 << 5)), None);
    assert_eq!(decode_date_word((41 << 9) | (4 << 5) | 31), None);
    assert_eq!(decode_date_word((41 << 9) | (2 << 5) | 29), None);
    assert_eq!(
        decode_date_word((40 << 9) | (2 << 5) | 29),
        Some(date(2020, 2, 29))
    );
    // 1980 + 120 is 2100, a century that is no leap year.
    assert_eq!(decode_date_word((120 << 9) | (2 << 5) | 29), None);
    assert_eq!(decode_time(24 << 11), None);
    assert_eq!(decode_time(60 << 5), None);
    assert_eq!(decode_time(30), None);
    // An increment that carries into second 60.
    assert_eq!(decode_datetime(0x52E8_0000 | 29, 200), None);
}

#[test]
fn calendar_dates_are_checked() {
    assert!(Date::from_calendar_date(2021, 2, 29).is_none());
    assert!(Date::from_calendar_date(2000, 2, 29).is_some());
    assert!(Date::from_calendar_date(1900, 2, 29).is_none());
    assert!(Date::from_calendar_date(2021, 0, 1).is_none());
    assert!(Date::from_calendar_date(2021, 13, 1).is_none());
    assert_eq!(
        Date::from_calendar_date(2021, 12, 31),
        Some(Date {
            year: 2021,
            month: 12,
            day: 31
        })
    );
}

#[test]
fn increments_carry_odd_seconds_and_hundredths() {
    let dt = decode_datetime(0x52E8_6CB5, 150).unwrap();
    assert_eq!(dt.time, clock(13, 37, 43, 500_000_000));
}

#[test]
fn fresh_stamps_share_one_reading() {
    let now = PrimitiveDateTime::new(date(2024, 2, 29), clock(1, 2, 3, 0));
    let t = EntryTimes::now(now);
    assert_eq!(t.created, Some(now));
    assert_eq!(t.modified, Some(now));
    assert_eq!(t.accessed, Some(now.date));
    assert_eq!(t.modified_or_epoch(), now);
    assert_eq!(
        EntryTimes::default().modified_or_epoch(),
        PrimitiveDateTime::new(date(1980, 1, 1), clock(0, 0, 0, 0))
    );
}
