//! Where an entry set holds what.

use vstd::prelude::*;

use super::compose::{
    composed, increment_field, lemma_le_bytes64_read, name_part, name_slots, stamp_field, SetFields,
};
use super::dir_edit::{grown_set, resummed, unlinked_set};
use super::direntry::{
    decoded_set, law_set_checksum_ignores_itself, lemma_set_checksum_range, name_unit, name_units,
    set_checksum_of,
};
use super::geometry_laws::word;
use super::layout::{le_bytes16, le_bytes64, Disk, ExfatLayout};
use super::regions::{lemma_cluster_places, lemma_written_frame};
use crate::bytes::spliced;
use crate::calendar::{Date, PrimitiveDateTime};
use crate::codec::exfat::raw_entry::padded_unit;
use crate::codec::stamp_laws::{law_stamp_layout, year_fits};
use crate::codec::time::datetime_of_stamp;
use crate::error::FsError;
use crate::text::decoded_utf16;

verus! {

/// The two bytes at `at`, the lower first.
pub open spec fn half(b: Seq<u8>, at: int) -> int {
    b[at] + 0x100 * b[at + 1]
}

/// The eight bytes at `at`, the lowest first.
pub open spec fn long(b: Seq<u8>, at: int) -> int {
    word(b, at) + 0x1_0000_0000 * word(b, at + 4)
}

/// The day as a stamp holds it in its upper half.
pub open spec fn day_bits(d: Date) -> int {
    (d.year - 1980) * 0x200 + d.month * 0x20 + d.day
}

/// The four bytes at `at` and the increment at `fine` hold the instant, if there is
/// one: the day, and the hour, the minute and half the second below it; the odd
/// second and the hundredths in the increment.
pub open spec fn holds_stamp(b: Seq<u8>, at: int, fine: int, t: Option<PrimitiveDateTime>) -> bool {
    match t {
        None => word(b, at) == 0 && b[fine] == 0,
        Some(dt) => {
            &&& half(b, at + 2) == day_bits(dt.date)
            &&& half(b, at) == dt.time.hour * 0x800 + dt.time.minute * 0x20 + dt.time.second as int
                / 2
            &&& b[fine] == 100 * (dt.time.second as int % 2) + dt.time.nanosecond as int
                / 10_000_000
        },
    }
}

/// Single bits of a byte and of a word.
pub proof fn lemma_flag_bits(s: u8, f: u16)
    ensures
        s & 0x02 != 0 <==> s & 0x02 == 0x02,
        f & 0x0002 != 0 <==> f & 0x0002 == 0x0002,
        s & !0x80u8 == s & 0x7F,
        f & !0x0002u16 == f & 0xFFFD,
        0x01u8 | 0x02 == 0x03,
        0x01u8 & !0x02u8 == 0x01,
{
    assert((s & 0x02 != 0 <==> s & 0x02 == 0x02) && (f & 0x0002 != 0 <==> f & 0x0002 == 0x0002) && s
        & !0x80u8 == s & 0x7F && f & !0x0002u16 == f & 0xFFFD && 0x01u8 | 0x02 == 0x03 && 0x01u8
        & !0x02u8 == 0x01) by (bit_vector);
}

/// A stored stamp and increment hold their instant.
proof fn lemma_stamp_held(b: Seq<u8>, at: int, fine: int, t: Option<PrimitiveDateTime>)
    requires
        word(b, at) == stamp_field(t),
        b[fine] == increment_field(t),
        t matches Some(dt) ==> dt.wf() && year_fits(dt.date.year as int),
    ensures
        holds_stamp(b, at, fine, t),
{
    if let Some(dt) = t {
        law_stamp_layout(dt);
        assert(word(b, at) == half(b, at) + 0x1_0000 * half(b, at + 2));
        assert(0 <= half(b, at) < 0x1_0000 && 0 <= half(b, at + 2) < 0x1_0000);
    }
}

/// The File Name entries hold fifteen units each, with zeros behind the name.
proof fn lemma_names_held(f: SetFields, b: Seq<u8>, n: int)
    requires
        name_part(f, b, n - 2),
    ensures
        forall|i: int, j: int|
            2 <= i < n && 0 <= j < 15 ==> #[trigger] half(b, 32 * i + 2 + 2 * j) == (if 15 * (i - 2)
                + j < f.units.len() {
                f.units[15 * (i - 2) + j] as int
            } else {
                0
            }),
{
    assert forall|i: int, j: int| 2 <= i < n && 0 <= j < 15 implies #[trigger] half(
        b,
        32 * i + 2 + 2 * j,
    ) == (if 15 * (i - 2) + j < f.units.len() {
        f.units[15 * (i - 2) + j] as int
    } else {
        0
    }) by {
        let k = 15 * (i - 2) + j;
        assert(k / 15 == i - 2 && k % 15 == j);
        assert(name_unit(b, k) == padded_unit(f.units, k));
        assert(0 <= half(b, 32 * i + 2 + 2 * j) < 0x1_0000);
    }
}

/// Where a composed entry set holds its fields. It has a File entry, a Stream
/// Extension and a File Name entry for each fifteen units of the name, with zeros
/// behind the name's end; the checksum stands in the File entry.
pub proof fn law_entry_set_layout(f: SetFields, b: Seq<u8>)
    requires
        composed(f, b),
        f.units.len() <= 255,
        f.times.wf(),
        f.times.created matches Some(t) ==> year_fits(t.date.year as int),
        f.times.modified matches Some(t) ==> year_fits(t.date.year as int),
        f.times.accessed matches Some(d) ==> year_fits(d.year as int),
    ensures
        ({
            let n = b.len() as int / 32;
            &&& b.len() == 32 * n
            &&& b[0] == 0x85 && b[1] == n - 1
            &&& half(b, 2) == set_checksum_of(b)
            &&& half(b, 4) == f.attributes
            &&& holds_stamp(b, 8, 20, f.times.created)
            &&& holds_stamp(b, 12, 21, f.times.modified)
            &&& match f.times.accessed {
                None => word(b, 16) == 0,
                Some(d) => half(b, 18) == day_bits(d) && half(b, 16) == 0,
            }
            &&& b[32] == 0xC0
            &&& b[33] == (if f.no_fat_chain {
                0x03u8
            } else {
                0x01u8
            })
            &&& b[35] == f.units.len()
            &&& half(b, 36) == f.name_hash
            &&& long(b, 40) == f.valid_data_length
            &&& word(b, 52) == f.first_cluster
            &&& long(b, 56) == f.data_length
            &&& f.units.len() > 0 ==> 15 * (n - 3) < f.units.len() <= 15 * (n - 2)
            &&& f.units.len() > 0 ==> forall|i: int| 2 <= i < n ==> #[trigger] b[32 * i] == 0xC1
            &&& forall|i: int, j: int|
                2 <= i < n && 0 <= j < 15 ==> #[trigger] half(b, 32 * i + 2 + 2 * j) == (if 15 * (i
                    - 2) + j < f.units.len() {
                    f.units[15 * (i - 2) + j] as int
                } else {
                    0
                })
        }),
{
    lemma_stamp_held(b, 8, 20, f.times.created);
    lemma_stamp_held(b, 12, 21, f.times.modified);
    lemma_names_held(f, b, 2 + name_slots(f.units.len() as int));
    if let Some(d) = f.times.accessed {
        assert(word(b, 16) == half(b, 16) + 0x1_0000 * half(b, 18));
    }
    lemma_flag_bits(0, 0);
}

/// An entry set reads as an entry if and only if it is a File entry, a Stream
/// Extension and File Name entries, as many as the File entry counts, with the
/// right checksum and a well-formed name; and its fields are then read from the
/// places at which they are stored.
pub proof fn law_entry_set_read(b: Seq<u8>)
    ensures
        ({
            let units = name_units(b);
            let whole = {
                &&& b.len() >= 64
                &&& b[0] == 0x85
                &&& b[1] >= 1
                &&& b.len() == 32 * (b[1] + 1)
                &&& b[32] == 0xC0
                &&& forall|i: int| 2 <= i <= b[1] ==> #[trigger] b[32 * i] == 0xC1
                &&& half(b, 2) == set_checksum_of(b)
            };
            &&& decoded_set(b) is Some <==> whole && decoded_utf16(units) is Some
            &&& whole ==> {
                &&& units.len() == (if b[35] <= 15 * (b[1] - 1) {
                    b[35] as int
                } else {
                    15 * (b[1] - 1)
                })
                &&& forall|i: int, j: int|
                    0 <= i && 0 <= j < 15 && 15 * i + j < units.len() ==> #[trigger] half(
                        b,
                        32 * (i + 2) + 2 + 2 * j,
                    ) == units[15 * i + j]
            }
            &&& decoded_set(b) matches Some(e) ==> {
                &&& decoded_utf16(units) == Some(e.name)
                &&& e.attributes == half(b, 4)
                &&& e.first_cluster == word(b, 52)
                &&& e.valid_data_length == long(b, 40)
                &&& e.data_length == long(b, 56)
                &&& e.no_fat_chain <==> b[33] & 0x02 == 0x02
                &&& e.entry_set_len == b.len()
                &&& e.created == datetime_of_stamp(word(b, 8), b[20] as int)
                &&& e.modified == datetime_of_stamp(word(b, 12), b[21] as int)
                &&& e.accessed == (match datetime_of_stamp(word(b, 16), 0) {
                    Some(dt) => Some(dt.date),
                    None => None,
                })
            }
        }),
{
    reveal(decoded_set);
    let units = name_units(b);
    assert forall|i: int, j: int| 0 <= i && 0 <= j < 15 && 15 * i + j < units.len() implies
        #[trigger] half(b, 32 * (i + 2) + 2 + 2 * j) == units[15 * i + j] by {
        let k = 15 * i + j;
        assert(k / 15 == i && k % 15 == j);
        assert(units[k] == name_unit(b, k));
        assert(0 <= half(b, 32 * (i + 2) + 2 + 2 * j) < 0x1_0000);
    }
    lemma_flag_bits(b[33], 0);
}

/// Unlinking an entry set clears the top bit of each of its entries' types, which
/// says that the entry is in use, and leaves every other bit as it was.
pub proof fn law_unlinked_set_layout(b: Seq<u8>, i: int)
    requires
        0 <= i < b.len(),
    ensures
        unlinked_set(b).len() == b.len(),
        unlinked_set(b)[i] == (if i % 32 == 0 {
            b[i] & 0x7F
        } else {
            b[i]
        }),
{
    lemma_flag_bits(b[i], 0);
}

/// The first write to a volume that was clean sets bit 1 of the flags at byte 106
/// and marks the percentage at byte 112 as unknown, before anything else; bringing
/// the volume back clears the bit. Nothing else of the volume changes by that, and
/// a volume that was found dirty stays marked.
pub proof fn law_dirty_mark(l: ExfatLayout, d: Disk, off: int, bytes: Seq<u8>, i: int)
    requires
        d.img.len() >= 120,
        !d.dirty,
        0 <= i < d.img.len(),
        120 <= off,
        l.written(d, off, bytes).out is Ok,
    ensures
        ({
            let up = l.raised(d);
            let w = l.written(d, off, bytes).disk;
            let down = l.lowered(w);
            &&& w.img.len() == d.img.len() && down.img.len() == d.img.len()
            &&& l.dirty_since_mount ==> up == d && half(w.img, 106) == half(d.img, 106)
                && down == w
            &&& !l.dirty_since_mount ==> {
                &&& up.dirty && w.dirty && !down.dirty
                &&& half(up.img, 106) == l.boot.flags | 0x0002
                &&& half(w.img, 106) == l.boot.flags | 0x0002
                &&& half(down.img, 106) == l.boot.flags & 0xFFFD
                &&& up.img[112] == 0xFF && w.img[112] == 0xFF && down.img[112] == 0xFF
                &&& i != 106 && i != 107 && i != 112 ==> up.img[i] == d.img[i]
                &&& i != 106 && i != 107 ==> down.img[i] == w.img[i]
            }
            &&& off <= i < off + bytes.len() ==> w.img[i] == bytes[i - off]
            &&& i >= 120 && !(off <= i < off + bytes.len()) ==> w.img[i] == d.img[i]
        }),
{
    let f = l.boot.flags;
    lemma_flag_bits(0, f);
    let up = l.raised(d);
    let w = l.written(d, off, bytes).disk;
    if !l.dirty_since_mount {
        let one = le_bytes16(f | 0x0002);
        let two = le_bytes16(f & !0x0002u16);
        assert(half(one, 0) == f | 0x0002 && half(two, 0) == f & !0x0002u16);
    }
}

/// When a directory has grown, its entry set says so: both lengths are the new one,
/// the mark of contiguous clusters is gone, the checksum is right, and nothing else
/// of the set changed.
pub proof fn law_grown_set_layout(b: Seq<u8>, added: int, i: int)
    requires
        b.len() >= 64,
        0 <= added,
        long(b, 56) + added <= u64::MAX,
        0 <= i < b.len(),
    ensures
        ({
            let g = grown_set(b, added);
            &&& g.len() == b.len()
            &&& long(g, 40) == long(b, 56) + added
            &&& long(g, 56) == long(b, 56) + added
            &&& g[33] == b[33] & 0xFD
            &&& half(g, 2) == set_checksum_of(g)
            &&& i != 2 && i != 3 && i != 33 && !(40 <= i < 48) && !(56 <= i < 64) ==> g[i] == b[i]
        }),
{
    let s = b[33];
    assert(s & !0x02u8 == s & 0xFD) by (bit_vector);
    let length = (long(b, 56) + added) as u64;
    let bytes = le_bytes64(length);
    assert(bytes.len() == 8);
    let x = b.update(33, s & !0x02u8);
    let y = spliced(spliced(x, 40, bytes), 56, bytes);
    let g = grown_set(b, added);
    assert(g == resummed(y));
    law_set_checksum_ignores_itself(y, g);
    lemma_set_checksum_range(y);
    assert forall|k: int| 0 <= k < 8 implies g[40 + k] == bytes[k] && g[56 + k] == bytes[k] by {}
    lemma_le_bytes64_read(g, 40, length);
    lemma_le_bytes64_read(g, 56, length);
}

/// Filling a cluster writes the data at its start and zeros behind it, up to its
/// end; data that is longer than a cluster is refused.
pub proof fn law_filled_cluster(l: ExfatLayout, d: Disk, c: int, data: Seq<u8>, i: int)
    requires
        l.wf(),
        l.regions_apart(),
        l.in_heap(c),
        l.boot.cluster_pos(c) + l.boot.cluster_bytes() <= d.img.len(),
        0 <= i < l.boot.cluster_bytes(),
    ensures
        ({
            let r = l.cluster_filled(d, c, data);
            &&& data.len() > l.boot.cluster_bytes() ==> r.out == Err::<(), FsError<()>>(
                FsError::InvalidInput,
            ) && r.disk == d
            &&& data.len() <= l.boot.cluster_bytes() ==> {
                &&& r.out is Ok
                &&& r.disk.img.len() == d.img.len()
                &&& r.disk.img[l.boot.cluster_pos(c) + i] == (if i < data.len() {
                    data[i]
                } else {
                    0u8
                })
            }
        }),
{
    lemma_cluster_places(l, c, 2);
    let cb = l.boot.cluster_bytes();
    let pos = l.boot.cluster_pos(c);
    if data.len() <= cb {
        let w = l.written(d, pos, data);
        lemma_written_frame(l, d, pos, data);
        if data.len() < cb {
            let zeros = Seq::new((cb - data.len()) as nat, |k: int| 0u8);
            assert(l.written(w.disk, pos + data.len(), zeros).out is Ok);
            lemma_written_frame(l, w.disk, pos + data.len(), zeros);
        }
    }
}

} // verus!
