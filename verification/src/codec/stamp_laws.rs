//! What a stored stamp keeps of an instant, and how it is laid out.

use vstd::prelude::*;

use super::time::{
    datetime_of_stamp, increment_of_datetime, law_date_word_round_trip, law_datetime_round_trip,
    representable, stamp_of_datetime, word_of_date, word_of_time,
};
use crate::calendar::{date_exists, Date, PrimitiveDateTime, Time};
use crate::exfat::compose::{stored_date, stored_datetime};

verus! {

/// The year is one that stamps can hold.
pub open spec fn year_fits(year: int) -> bool {
    1980 <= year <= 2107
}

/// The instant with what lies below a hundredth of a second cut off.
pub open spec fn to_hundredths(dt: PrimitiveDateTime) -> PrimitiveDateTime {
    let ns = dt.time.nanosecond as int;
    PrimitiveDateTime {
        date: dt.date,
        time: Time { nanosecond: (ns - ns % 10_000_000) as u32, ..dt.time },
    }
}

/// The instant cut to an even second.
pub open spec fn to_even_second(dt: PrimitiveDateTime) -> PrimitiveDateTime {
    let s = dt.time.second as int;
    PrimitiveDateTime {
        date: dt.date,
        time: Time { second: (s - s % 2) as u8, nanosecond: 0, ..dt.time },
    }
}

/// The fields of a packed word, by shifting.
proof fn lemma_word_fields(ts: u32)
    ensures
        ts >> 25u32 == ts as int / 0x200_0000,
        (ts >> 21u32) & 0xF == (ts as int / 0x20_0000) % 0x10,
        (ts >> 16u32) & 0x1F == (ts as int / 0x1_0000) % 0x20,
        (ts >> 11u32) & 0x1F == (ts as int / 0x800) % 0x20,
        (ts >> 5u32) & 0x3F == (ts as int / 0x20) % 0x40,
        ts & 0x1F == ts as int % 0x20,
{
    assert(ts >> 25u32 == ts / 0x200_0000 && (ts >> 21u32) & 0xF == (ts / 0x20_0000) % 0x10 && (ts
        >> 16u32) & 0x1F == (ts / 0x1_0000) % 0x20 && (ts >> 11u32) & 0x1F == (ts / 0x800) % 0x20
        && (ts >> 5u32) & 0x3F == (ts / 0x20) % 0x40 && ts & 0x1F == ts % 0x20) by (bit_vector);
}

/// A stamp holds, from its highest bit down, the years since 1980 in seven bits,
/// the month in four, the day in five, the hour in five, the minute in six and
/// half the second in five; the increment holds the odd second as a hundred and
/// the hundredths.
pub proof fn law_stamp_layout(dt: PrimitiveDateTime)
    requires
        dt.wf(),
        year_fits(dt.date.year as int),
    ensures
        ({
            let ts = stamp_of_datetime(dt) as u32;
            &&& ts == stamp_of_datetime(dt)
            &&& ts >> 25u32 == dt.date.year - 1980
            &&& (ts >> 21u32) & 0xF == dt.date.month
            &&& (ts >> 16u32) & 0x1F == dt.date.day
            &&& (ts >> 11u32) & 0x1F == dt.time.hour
            &&& (ts >> 5u32) & 0x3F == dt.time.minute
            &&& ts & 0x1F == dt.time.second as int / 2
            &&& increment_of_datetime(dt) / 100 == dt.time.second as int % 2
            &&& increment_of_datetime(dt) % 100 == dt.time.nanosecond as int / 10_000_000
            &&& word_of_date(dt.date) == ts >> 16u32
            &&& word_of_time(dt.time) == ts & 0xFFFF
        }),
{
    let ts = stamp_of_datetime(dt);
    let (d, w) = (word_of_date(dt.date), word_of_time(dt.time));
    law_date_word_round_trip(dt.date);
    super::time::law_time_word_round_trip(dt.time);
    let (y, m, day) = (dt.date.year - 1980, dt.date.month as int, dt.date.day as int);
    assert(d == y * 0x200 + m * 0x20 + day);
    assert(ts == d * 0x1_0000 + w);
    assert(ts / 0x1_0000 == d && ts % 0x1_0000 == w);
    lemma_word_fields(ts as u32);
    assert(ts / 0x200_0000 == d / 0x200);
    assert(d / 0x200 == y);
    assert(ts / 0x20_0000 == d / 0x20);
    assert(d / 0x20 == y * 0x10 + m);
    assert(ts / 0x800 == d * 0x20 + w / 0x800);
    assert(ts / 0x20 == d * 0x800 + w / 0x20);
    assert(w / 0x800 == dt.time.hour);
    assert(w / 0x20 == dt.time.hour * 0x40 + dt.time.minute);
    let u = ts as u32;
    assert(u >> 16u32 == u / 0x1_0000 && u & 0xFFFF == u % 0x1_0000) by (bit_vector);
}

/// A stamp is read by the same layout. It stands for no instant if and only if it
/// is zero or a field is out of range.
pub proof fn law_stamp_read(ts: u32, incr: u8)
    ensures
        ({
            let (year, month, day) = (1980 + (ts >> 25u32), (ts >> 21u32) & 0xF, (ts >> 16u32)
                & 0x1F);
            let (hour, minute) = ((ts >> 11u32) & 0x1F, (ts >> 5u32) & 0x3F);
            let second = 2 * (ts & 0x1F) + incr as int / 100;
            let good = ts != 0 && date_exists(year as int, month as int, day as int) && hour <= 23
                && minute <= 59 && second <= 59;
            match datetime_of_stamp(ts as int, incr as int) {
                None => !good,
                Some(dt) => {
                    &&& good
                    &&& dt.date.year == year
                    &&& dt.date.month == month
                    &&& dt.date.day == day
                    &&& dt.time.hour == hour
                    &&& dt.time.minute == minute
                    &&& dt.time.second == second
                    &&& dt.time.nanosecond == (incr as int % 100) * 10_000_000
                },
            }
        }),
{
    lemma_word_fields(ts);
    let t = ts as int;
    assert((t / 0x1_0000) / 0x200 == t / 0x200_0000);
    assert((t / 0x1_0000) / 0x20 == t / 0x20_0000);
}

/// Stored with its increment, an instant of a year that stamps can hold keeps all
/// but what lies below a hundredth of a second. Without the increment it keeps
/// the even second.
pub proof fn law_stamp_keeps(dt: PrimitiveDateTime)
    requires
        dt.wf(),
        year_fits(dt.date.year as int),
    ensures
        datetime_of_stamp(stamp_of_datetime(dt), increment_of_datetime(dt)) == Some(
            to_hundredths(dt),
        ),
        datetime_of_stamp(stamp_of_datetime(dt), 0) == Some(to_even_second(dt)),
        stamp_of_datetime(dt) > 0,
{
    let (h, s) = (to_hundredths(dt), to_even_second(dt));
    assert(representable(h)) by {
        let ns = dt.time.nanosecond as int;
        assert((ns - ns % 10_000_000) % 10_000_000 == 0);
    }
    law_datetime_round_trip(h);
    law_datetime_round_trip(s);
}

/// What an exFAT entry keeps of the stamps it is given: an instant to a hundredth
/// of a second, a date whole, and that there is none.
pub proof fn law_stored_stamps(t: Option<PrimitiveDateTime>, d: Option<Date>)
    requires
        t matches Some(dt) ==> dt.wf() && year_fits(dt.date.year as int),
        d matches Some(date) ==> date.wf() && year_fits(date.year as int),
    ensures
        t matches Some(dt) ==> stored_datetime(t) == Some(to_hundredths(dt)),
        t is None ==> stored_datetime(t) is None,
        stored_date(d) == d,
{
    if let Some(dt) = t {
        law_stamp_keeps(dt);
    }
    crate::exfat::compose::law_stored_times_exact(None, d);
}

} // verus!
