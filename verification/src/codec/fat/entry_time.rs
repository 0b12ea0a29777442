//! Classic FAT directory-entry timestamp fields.
//!
//! FAT packs a date word into the high 16 bits and a time word into the low
//! 16 bits of a DOS timestamp — the same layout exFAT uses — so all three
//! fields delegate to the shared [`crate::codec::time`] codec.

use vstd::prelude::*;

use crate::calendar::{Date, PrimitiveDateTime};
use crate::codec::time::{
    date_of_word, datetime_of_stamp, decode_date_word, decode_datetime, encode_date_word,
    encode_datetime, increment_of_datetime, word_of_date, word_of_time,
};

verus! {

/// Combine a DOS date word (high half) and time word (low half).
#[inline]
fn pack(date: u16, time: u16) -> (r: u32)
    ensures
        r == date * 0x1_0000 + time,
{
    date as u32 * 0x1_0000 + time as u32
}

/// The DOS time word (low half) of a packed timestamp.
#[inline]
fn time_word(ts: u32) -> (r: u16)
    ensures
        r as int == ts % 0x1_0000,
{
    (ts % 0x1_0000) as u16
}

/// The DOS date word (high half) of a packed timestamp.
#[inline]
fn date_word(ts: u32) -> (r: u16)
    ensures
        r as int == ts / 0x1_0000,
{
    (ts / 0x1_0000) as u16
}

/// Creation stamp: 10 ms-increment byte + time word + date word (`DIR_CrtTimeTenth`
/// / `DIR_CrtTime` / `DIR_CrtDate`). A zero DATE reads back as absent — a
/// zero time word is a legitimate midnight (00:00:00), common from tools
/// that only stamp the date.
#[derive(Debug, Clone, Copy)]
pub struct EntryCreationTime(pub Option<PrimitiveDateTime>);

/// What the three creation fields stand for.
pub open spec fn creation_of(incr_10ms: int, time: int, date: int) -> Option<PrimitiveDateTime> {
    if date == 0 {
        None
    } else {
        datetime_of_stamp(date * 0x1_0000 + time, incr_10ms)
    }
}

impl EntryCreationTime {
    pub open spec fn wf(self) -> bool {
        self.0 matches Some(dt) ==> dt.wf()
    }

    /// The increment byte, time word and date word written for this stamp.
    pub open spec fn fields(self) -> (int, int, int) {
        match self.0 {
            Some(dt) => (increment_of_datetime(dt), word_of_time(dt.time), word_of_date(dt.date)),
            None => (0, 0, 0),
        }
    }

    /// Decode from `DIR_CrtTimeTenth` + `DIR_CrtTime` + `DIR_CrtDate`.
    pub fn decode(incr_10ms: u8, time: u16, date: u16) -> (r: Self)
        ensures
            r.0 == creation_of(incr_10ms as int, time as int, date as int),
            r.wf(),
    {
        if date == 0 {
            EntryCreationTime(None)
        } else {
            EntryCreationTime(decode_datetime(pack(date, time), incr_10ms))
        }
    }

    /// Encode to `(tenths, time_word, date_word)`.
    pub fn encode(self) -> (r: (u8, u16, u16))
        requires
            self.wf(),
        ensures
            (r.0 as int, r.1 as int, r.2 as int) == self.fields(),
    {
        match self.0 {
            Some(dt) => {
                let (ts, incr) = encode_datetime(dt);
                (incr, time_word(ts), date_word(ts))
            },
            None => (0, 0, 0),
        }
    }
}

/// Modification stamp: time word + date word (`DIR_WrtTime` / `DIR_WrtDate`),
/// 2-second resolution and always present on a valid entry.
#[derive(Debug, Clone, Copy)]
pub struct EntryModificationTime(pub Option<PrimitiveDateTime>);

impl EntryModificationTime {
    pub open spec fn wf(self) -> bool {
        self.0 matches Some(dt) ==> dt.wf()
    }

    /// The time word and date word written for this stamp.
    pub open spec fn fields(self) -> (int, int) {
        match self.0 {
            Some(dt) => (word_of_time(dt.time), word_of_date(dt.date)),
            None => (0, 0),
        }
    }

    /// Decode from `DIR_WrtTime` + `DIR_WrtDate`.
    pub fn decode(time: u16, date: u16) -> (r: Self)
        ensures
            r.0 == datetime_of_stamp(date * 0x1_0000 + time, 0),
            r.wf(),
    {
        EntryModificationTime(decode_datetime(pack(date, time), 0))
    }

    /// Encode to `(time_word, date_word)`.
    pub fn encode(self) -> (r: (u16, u16))
        requires
            self.wf(),
        ensures
            (r.0 as int, r.1 as int) == self.fields(),
    {
        let ts: u32 = match self.0 {
            Some(dt) => encode_datetime(dt).0,
            None => 0,
        };
        (time_word(ts), date_word(ts))
    }
}

/// Last-accessed stamp: a date word only (`DIR_LstAccDate`).
#[derive(Debug, Clone, Copy)]
pub struct EntryLastAccessedTime(pub Option<Date>);

/// What the last-accessed field stands for.
pub open spec fn accessed_of(date: int) -> Option<Date> {
    if date == 0 {
        None
    } else {
        date_of_word(date)
    }
}

impl EntryLastAccessedTime {
    pub open spec fn wf(self) -> bool {
        self.0 matches Some(d) ==> d.wf()
    }

    /// The date word written for this stamp.
    pub open spec fn field(self) -> int {
        match self.0 {
            Some(d) => word_of_date(d),
            None => 0,
        }
    }

    /// Decode from `DIR_LstAccDate`.
    pub fn decode(date: u16) -> (r: Self)
        ensures
            r.0 == accessed_of(date as int),
            r.wf(),
    {
        if date == 0 {
            EntryLastAccessedTime(None)
        } else {
            EntryLastAccessedTime(decode_date_word(date))
        }
    }

    /// Encode to the date word.
    pub fn encode(self) -> (r: u16)
        requires
            self.wf(),
        ensures
            r == self.field(),
    {
        match self.0 {
            Some(d) => encode_date_word(d),
            None => 0,
        }
    }
}

/// A creation stamp read from disk is written back as one that reads the same.
pub proof fn law_creation_stable(incr_10ms: int, time: int, date: int)
    requires
        0 <= incr_10ms <= u8::MAX,
        0 <= time <= u16::MAX,
        0 <= date <= u16::MAX,
    ensures
        ({
            let f = EntryCreationTime(creation_of(incr_10ms, time, date)).fields();
            creation_of(f.0, f.1, f.2) == creation_of(incr_10ms, time, date)
        }),
{
    crate::codec::time::law_decoded_is_representable(date * 0x1_0000 + time, incr_10ms);
    match creation_of(incr_10ms, time, date) {
        Some(dt) => {
            crate::codec::time::law_datetime_round_trip(dt);
            crate::codec::time::law_date_word_round_trip(dt.date);
        },
        None => {},
    }
}

/// A modification stamp read from disk is written back as one that reads the same.
pub proof fn law_modification_stable(time: int, date: int)
    requires
        0 <= time <= u16::MAX,
        0 <= date <= u16::MAX,
    ensures
        ({
            let f = EntryModificationTime(datetime_of_stamp(date * 0x1_0000 + time, 0)).fields();
            datetime_of_stamp(f.1 * 0x1_0000 + f.0, 0) == datetime_of_stamp(
                date * 0x1_0000 + time,
                0,
            )
        }),
{
    crate::codec::time::law_decoded_is_representable(date * 0x1_0000 + time, 0);
    match datetime_of_stamp(date * 0x1_0000 + time, 0) {
        Some(dt) => {
            crate::codec::time::law_datetime_round_trip(dt);
            assert(increment_of_datetime(dt) == 0);
        },
        None => {},
    }
}

/// A last-accessed stamp read from disk is written back as one that reads the same.
pub proof fn law_accessed_stable(date: int)
    requires
        0 <= date <= u16::MAX,
    ensures
        accessed_of(EntryLastAccessedTime(accessed_of(date)).field()) == accessed_of(date),
{
    match accessed_of(date) {
        Some(d) => {
            crate::codec::time::law_date_word_round_trip(d);
        },
        None => {},
    }
}

} // verus!
