//! exFAT entry-set write-back for open streams.

use vstd::prelude::*;

use super::compose::{
    date_field, lemma_le_bytes64_read, lemma_stamp_fits, stored_date, stored_datetime,
};
use super::dir_edit::resummed;
use super::direntry::{
    decoded_set, entry_set_checksum, law_set_checksum_ignores_itself, lemma_decoded_set_shape,
    lemma_set_checksum_range, name_unit, name_units, set_checksum_of, set_shape, EntryFields,
    SetLoc,
};
use super::layout::{
    ends_as, failed, file_ends_as, le_bytes16, le_bytes32, le_bytes64, set_u16, set_u32, set_u64,
    Disk, ExfatLayout, Run,
};
use super::regions::lemma_le_bytes32_read;
use super::volume::ExfatVfs;
use crate::attrs::{packed_attributes, AttrBits, Attributes};
use crate::bytes::{le16, le32, le64, spliced};
use crate::calendar::{Date, PrimitiveDateTime};
use crate::codec::{le_u16, le_u64};
use crate::codec::exfat::consts::{
    ENTRY_TYPE_FILE, ENTRY_TYPE_FILE_NAME, ENTRY_TYPE_STREAM_EXTENSION,
    STREAM_FLAG_ALLOCATION_POSSIBLE, STREAM_FLAG_NO_FAT_CHAIN,
};
use crate::codec::exfat::raw_entry::{law_no_fat_chain_bit, no_fat_chain_bit, with_no_fat_chain};
use crate::codec::time::{
    datetime_of_stamp, encode_date, encode_datetime, increment_of_datetime, stamp_of_datetime,
    word_of_date,
};
use crate::device::Device;
use crate::entry_times::EntryTimes;
use crate::error::{CorruptKind, FileError, FsError};
use crate::vfs::EntryPatch;

verus! {

/// The four user-settable attribute bits.
pub const USER_BITS: u16 = 0x0027;

/// `times` where it has a stamp, else `base`.
pub open spec fn merged_times(base: EntryTimes, times: Option<EntryTimes>) -> EntryTimes {
    match times {
        None => base,
        Some(t) => EntryTimes {
            created: if t.created is Some {
                t.created
            } else {
                base.created
            },
            modified: if t.modified is Some {
                t.modified
            } else {
                base.modified
            },
            accessed: if t.accessed is Some {
                t.accessed
            } else {
                base.accessed
            },
        },
    }
}

/// The set with its contiguity flag changed.
pub open spec fn with_contiguity(set: Seq<u8>, on: Option<bool>) -> Seq<u8> {
    match on {
        Some(b) => set.update(33, with_no_fat_chain(set[33], b)),
        None => set,
    }
}

/// The set with its valid length cut to `n` where it exceeds that.
pub open spec fn with_valid_cut(set: Seq<u8>, n: u64) -> Seq<u8> {
    if le64(set, 40) > n {
        spliced(set, 40, le_bytes64(n))
    } else {
        set
    }
}

/// The set with its data length changed, and its valid length cut to that. A
/// file with data has an allocation.
pub open spec fn with_size(set: Seq<u8>, size: Option<u64>) -> Seq<u8> {
    match size {
        Some(n) => {
            let s = with_valid_cut(spliced(set, 56, le_bytes64(n)), n);
            if n > 0 {
                s.update(33, s[33] | STREAM_FLAG_ALLOCATION_POSSIBLE)
            } else {
                s
            }
        },
        None => set,
    }
}

/// The set with its valid length changed; it never exceeds the data length.
pub open spec fn with_valid_size(set: Seq<u8>, valid: Option<u64>) -> Seq<u8> {
    match valid {
        Some(v) => spliced(
            set,
            40,
            le_bytes64(
                if v as int <= le64(set, 56) {
                    v
                } else {
                    le64(set, 56) as u64
                },
            ),
        ),
        None => set,
    }
}

/// The set with its first cluster changed.
pub open spec fn with_first_cluster(set: Seq<u8>, first: Option<u32>) -> Seq<u8> {
    match first {
        Some(c) => spliced(set, 52, le_bytes32(c)),
        None => set,
    }
}

/// The mask with its user-settable bits replaced; the directory bit and the
/// reserved bits stay.
pub open spec fn replaced_user_bits(mask: u16, a: Attributes) -> u16 {
    (mask & !USER_BITS) | (packed_attributes(a, false) & USER_BITS)
}

/// The set with its user-settable attributes changed.
pub open spec fn with_attributes(set: Seq<u8>, attrs: Option<Attributes>) -> Seq<u8> {
    match attrs {
        Some(a) => spliced(set, 4, le_bytes16(replaced_user_bits(le16(set, 4) as u16, a))),
        None => set,
    }
}

/// The set with its stamps changed. A written stamp clears the matching
/// `UtcOffset` byte.
pub open spec fn with_times(set: Seq<u8>, t: EntryTimes) -> Seq<u8> {
    let a = match t.created {
        Some(dt) => spliced(set, 8, le_bytes32(stamp_of_datetime(dt) as u32)).update(
            20,
            increment_of_datetime(dt) as u8,
        ).update(22, 0),
        None => set,
    };
    let b = match t.modified {
        Some(dt) => spliced(a, 12, le_bytes32(stamp_of_datetime(dt) as u32)).update(
            21,
            increment_of_datetime(dt) as u8,
        ).update(23, 0),
        None => a,
    };
    match t.accessed {
        Some(d) => spliced(b, 16, le_bytes32((word_of_date(d) * 0x1_0000) as u32)).update(24, 0),
        None => b,
    }
}

/// The Stream Extension part of a patch.
pub open spec fn stream_patched(set: Seq<u8>, patch: EntryPatch) -> Seq<u8> {
    let a = with_contiguity(set, patch.no_fat_chain);
    let b = with_size(a, patch.size);
    let c = with_valid_size(b, patch.valid_size);
    with_first_cluster(c, patch.first_cluster)
}

/// The set as a patch leaves it, checksum included.
pub open spec fn patched_set(set: Seq<u8>, patch: EntryPatch, times: EntryTimes) -> Seq<u8> {
    resummed(with_times(with_attributes(stream_patched(set, patch), patch.attrs), times))
}

impl ExfatLayout {
    /// Patching the entry set at `loc`.
    pub open spec fn entry_patched(
        self,
        d: Disk,
        loc: SetLoc,
        patch: EntryPatch,
        times: EntryTimes,
    ) -> Run<()> {
        match self.set_read(d.img, loc) {
            Err(e) => failed(e, d),
            Ok(set) => if set[32] != ENTRY_TYPE_STREAM_EXTENSION || set[0] != ENTRY_TYPE_FILE {
                failed(FsError::Corrupt(CorruptKind::DirEntry), d)
            } else {
                self.set_written(d, loc, patched_set(set, patch, times))
            },
        }
    }
}

fn patch_stream(set: &mut Vec<u8>, patch: &EntryPatch)
    requires
        old(set)@.len() >= 64,
    ensures
        final(set)@ == stream_patched(old(set)@, *patch),
        final(set)@.len() == old(set)@.len(),
{
    if let Some(nfc) = patch.no_fat_chain {
        let flags: u8 = if nfc {
            set[33] | STREAM_FLAG_NO_FAT_CHAIN
        } else {
            set[33] & !STREAM_FLAG_NO_FAT_CHAIN
        };
        set.set(33, flags);
    }
    // DataLength IS the file's byte size; ValidDataLength marks the
    // initialized prefix (VDL ≤ DL).
    if let Some(size) = patch.size {
        set_u64(set, 56, size);
        if le_u64(set.as_slice(), 40) > size {
            set_u64(set, 40, size);
        }
        if size > 0 {
            let flags: u8 = set[33] | STREAM_FLAG_ALLOCATION_POSSIBLE;
            set.set(33, flags);
        }
    }
    if let Some(valid) = patch.valid_size {
        let length: u64 = le_u64(set.as_slice(), 56);
        if valid <= length {
            set_u64(set, 40, valid);
        } else {
            set_u64(set, 40, length);
        }
    }
    if let Some(first) = patch.first_cluster {
        set_u32(set, 52, first);
    }
}

fn patch_file(set: &mut Vec<u8>, attrs: Option<Attributes>, times: EntryTimes)
    requires
        old(set)@.len() >= 64,
        times.wf(),
    ensures
        final(set)@ == with_times(with_attributes(old(set)@, attrs), times),
        final(set)@.len() == old(set)@.len(),
{
    if let Some(a) = attrs {
        // Replace only the four user-settable bits; the directory bit
        // and any reserved high bits are preserved.
        let mask: u16 = le_u16(set.as_slice(), 4);
        let bits: u16 = AttrBits::from_attributes(a, false).bits();
        set_u16(set, 4, (mask & !USER_BITS) | (bits & USER_BITS));
    }
    let ghost s0 = set@;
    // Stamps written by this offset-less driver clear the matching
    // UtcOffset byte (OffsetValid=0): keeping a foreign entry's old
    // offset would declare our local time to be in that zone.
    if let Some(dt) = times.created {
        let (ts, incr) = encode_datetime(dt);
        set_u32(set, 8, ts);
        set.set(20, incr);
        set.set(22, 0);
    }
    if let Some(dt) = times.modified {
        let (ts, incr) = encode_datetime(dt);
        set_u32(set, 12, ts);
        set.set(21, incr);
        set.set(23, 0);
    }
    if let Some(date) = times.accessed {
        let ts: u32 = encode_date(date);
        set_u32(set, 16, ts);
        set.set(24, 0);
    }
}

impl<D: Device> ExfatVfs<D> {
    /// Apply `patch` and the stamps `times` to the entry set at `loc`.
    pub fn patch_entry_set(&mut self, loc: &SetLoc, patch: &EntryPatch, times: EntryTimes) -> (r:
        Result<(), FsError<D::Error>>)
        requires
            old(self).wf(),
            loc.wf(),
            times.wf(),
        ensures
            final(self).wf(),
            final(self).keeps(*old(self)),
            ends_as(
                r,
                old(self).layout.entry_patched(old(self).disk(), *loc, *patch, times),
                final(self).disk(),
                old(self).dev.reliable(),
            ),
            r is Ok ==> final(self).dev.durable() == final(self).dev.contents(),
    {
        let mut set: Vec<u8> = match self.read_set(loc) {
            Ok(set) => set,
            Err(e) => {
                return Err(e);
            },
        };
        let ghost found = set@;
        if set[32] != ENTRY_TYPE_STREAM_EXTENSION || set[0] != ENTRY_TYPE_FILE {
            return Err(FsError::Corrupt(CorruptKind::DirEntry));
        }
        patch_stream(&mut set, patch);
        patch_file(&mut set, patch.attrs, times);
        let sum: u16 = entry_set_checksum(set.as_slice());
        set_u16(&mut set, 2, sum);
        assert(set@ == patched_set(found, *patch, times));
        match self.write_set(loc, set.as_slice()) {
            Ok(_) => self.sync(),
            Err(e) => Err(e),
        }
    }
}

/// Writes a whole File+Stream+Name entry set (with checksum) for one open file.
pub struct ExfatDirSlotWriter {
    /// Location of the entry set; `None` for read-only handles, whose
    /// patches are no-ops.
    pub loc: Option<SetLoc>,
    /// Cached timestamps for merge when patch only supplies some fields.
    pub times: EntryTimes,
}

impl ExfatDirSlotWriter {
    pub open spec fn wf(self) -> bool {
        &&& self.times.wf()
        &&& self.loc matches Some(loc) ==> loc.wf()
    }

    pub fn new(
        loc: Option<SetLoc>,
        created: Option<PrimitiveDateTime>,
        modified: Option<PrimitiveDateTime>,
        accessed: Option<Date>,
    ) -> (r: Self)
        ensures
            r.loc == loc,
            r.times == (EntryTimes { created, modified, accessed }),
    {
        ExfatDirSlotWriter { loc, times: EntryTimes { created, modified, accessed } }
    }

    /// Apply a patch to the entry set of this file. A handle without a
    /// location leaves the disk alone.
    pub fn write_patch<D: Device>(&mut self, vol: &mut ExfatVfs<D>, patch: EntryPatch) -> (r:
        Result<(), FileError<D::Error>>)
        requires
            old(self).wf(),
            old(vol).wf(),
            patch.wf(),
        ensures
            final(self).wf(),
            final(self).loc == old(self).loc,
            final(vol).wf(),
            final(vol).keeps(*old(vol)),
            match old(self).loc {
                None => {
                    &&& r is Ok
                    &&& *final(vol) == *old(vol)
                    &&& *final(self) == *old(self)
                },
                Some(loc) => {
                    let times = merged_times(old(self).times, patch.times);
                    &&& final(self).times == times
                    &&& file_ends_as(
                        r,
                        old(vol).layout.entry_patched(old(vol).disk(), loc, patch, times),
                        final(vol).disk(),
                        old(vol).dev.reliable(),
                    )
                    &&& r is Ok ==> final(vol).dev.durable() == final(vol).dev.contents()
                },
            },
    {
        let loc = match self.loc {
            Some(loc) => loc,
            None => {
                return Ok(());
            },
        };
        if let Some(times) = patch.times {
            if times.created.is_some() {
                self.times.created = times.created;
            }
            if times.modified.is_some() {
                self.times.modified = times.modified;
            }
            if times.accessed.is_some() {
                self.times.accessed = times.accessed;
            }
        }
        match vol.patch_entry_set(&loc, &patch, self.times) {
            Ok(_) => Ok(()),
            Err(e) => Err(FileError::from(e)),
        }
    }
}

/// Setting attributes makes them read so and keeps the directory bit.
pub proof fn law_replaced_user_bits(mask: u16, a: Attributes)
    ensures
        crate::attrs::unpacked_attributes(replaced_user_bits(mask, a)) == a,
        crate::attrs::has_bits(replaced_user_bits(mask, a), crate::attrs::DIRECTORY)
            == crate::attrs::has_bits(mask, crate::attrs::DIRECTORY),
        replaced_user_bits(mask, a) & !USER_BITS == mask & !USER_BITS,
{
    crate::attrs::law_attributes_round_trip(a, false);
    let q = packed_attributes(a, false);
    assert({
        let n = (mask & !0x0027u16) | (q & 0x0027u16);
        &&& (n & 0x0001u16 == 0x0001u16) == (q & 0x0001u16 == 0x0001u16)
        &&& (n & 0x0002u16 == 0x0002u16) == (q & 0x0002u16 == 0x0002u16)
        &&& (n & 0x0004u16 == 0x0004u16) == (q & 0x0004u16 == 0x0004u16)
        &&& (n & 0x0020u16 == 0x0020u16) == (q & 0x0020u16 == 0x0020u16)
        &&& (n & 0x0010u16 == 0x0010u16) == (mask & 0x0010u16 == 0x0010u16)
        &&& n & !0x0027u16 == mask & !0x0027u16
    }) by (bit_vector);
}

/// What the entry `e` says once `patch` and `times` are applied.
pub open spec fn patched_fields(e: EntryFields, patch: EntryPatch, times: EntryTimes) -> EntryFields {
    let data_length = match patch.size {
        Some(n) => n,
        None => e.data_length,
    };
    EntryFields {
        attributes: match patch.attrs {
            Some(a) => replaced_user_bits(e.attributes, a),
            None => e.attributes,
        },
        first_cluster: match patch.first_cluster {
            Some(c) => c,
            None => e.first_cluster,
        },
        data_length,
        valid_data_length: match patch.valid_size {
            Some(v) => if v <= data_length {
                v
            } else {
                data_length
            },
            None => if patch.size is Some && e.valid_data_length > data_length {
                data_length
            } else {
                e.valid_data_length
            },
        },
        no_fat_chain: match patch.no_fat_chain {
            Some(b) => b,
            None => e.no_fat_chain,
        },
        created: match times.created {
            Some(_) => stored_datetime(times.created),
            None => e.created,
        },
        modified: match times.modified {
            Some(_) => stored_datetime(times.modified),
            None => e.modified,
        },
        accessed: match times.accessed {
            Some(_) => stored_date(times.accessed),
            None => e.accessed,
        },
        ..e
    }
}

/// The length part of a patch.
proof fn lemma_size_patched(set: Seq<u8>, size: Option<u64>)
    requires
        set.len() >= 64,
    ensures
        ({
            let s = with_size(set, size);
            &&& s.len() == set.len()
            &&& forall|i: int|
                0 <= i < set.len() && i != 33 && !(40 <= i < 48) && !(56 <= i < 64)
                    ==> #[trigger] s[i] == set[i]
            &&& le64(s, 40) == (match size {
                Some(n) => if le64(set, 40) > n {
                    n as int
                } else {
                    le64(set, 40)
                },
                None => le64(set, 40),
            })
            &&& le64(s, 56) == (match size {
                Some(n) => n as int,
                None => le64(set, 56),
            })
            &&& no_fat_chain_bit(s[33]) == no_fat_chain_bit(set[33])
        }),
{
    let x = set[33];
    assert((x | 0x01u8) & 0x02u8 == x & 0x02u8) by (bit_vector);
    if let Some(n) = size {
        let s = with_size(set, size);
        let a = spliced(set, 56, le_bytes64(n));
        lemma_le64_same(a, set, 40);
        assert forall|i: int| 56 <= i < 64 implies #[trigger] s[i] == le_bytes64(n)[i - 56] by {}
        lemma_le_bytes64_read(s, 56, n);
        if le64(set, 40) > n {
            assert forall|i: int| 40 <= i < 48 implies #[trigger] s[i] == le_bytes64(n)[i - 40] by {}
            lemma_le_bytes64_read(s, 40, n);
        } else {
            lemma_le64_same(s, set, 40);
        }
    }
}

/// The valid-length part of a patch.
proof fn lemma_valid_patched(set: Seq<u8>, valid: Option<u64>)
    requires
        set.len() >= 64,
    ensures
        ({
            let s = with_valid_size(set, valid);
            &&& s.len() == set.len()
            &&& forall|i: int|
                0 <= i < set.len() && !(40 <= i < 48) ==> #[trigger] s[i] == set[i]
            &&& le64(s, 40) == (match valid {
                Some(v) => if v as int <= le64(set, 56) {
                    v as int
                } else {
                    le64(set, 56)
                },
                None => le64(set, 40),
            })
        }),
{
    lemma_le64_bound(set, 56);
    if let Some(v) = valid {
        let w = if v as int <= le64(set, 56) {
            v
        } else {
            le64(set, 56) as u64
        };
        let s = with_valid_size(set, valid);
        assert forall|i: int| 40 <= i < 48 implies #[trigger] s[i] == le_bytes64(w)[i - 40] by {}
        lemma_le_bytes64_read(s, 40, w);
    }
}

/// The first-cluster part of a patch.
proof fn lemma_cluster_patched(set: Seq<u8>, first: Option<u32>)
    requires
        set.len() >= 64,
    ensures
        ({
            let s = with_first_cluster(set, first);
            &&& s.len() == set.len()
            &&& forall|i: int|
                0 <= i < set.len() && !(52 <= i < 56) ==> #[trigger] s[i] == set[i]
            &&& le32(s, 52) == (match first {
                Some(c) => c as int,
                None => le32(set, 52),
            })
        }),
{
    if let Some(c) = first {
        let s = with_first_cluster(set, first);
        assert forall|i: int| 52 <= i < 56 implies #[trigger] s[i] == le_bytes32(c)[i - 52] by {}
        lemma_le_bytes32_read(s, 52, c);
    }
}

/// Eight equal bytes read as the same number.
proof fn lemma_le64_same(a: Seq<u8>, b: Seq<u8>, off: int)
    requires
        a[off] == b[off],
        a[off + 1] == b[off + 1],
        a[off + 2] == b[off + 2],
        a[off + 3] == b[off + 3],
        a[off + 4] == b[off + 4],
        a[off + 5] == b[off + 5],
        a[off + 6] == b[off + 6],
        a[off + 7] == b[off + 7],
    ensures
        le64(a, off) == le64(b, off),
{
}

/// The Stream Extension part of a patch: its fields, and what it leaves.
proof fn lemma_stream_patched(set: Seq<u8>, patch: EntryPatch)
    requires
        set.len() >= 64,
    ensures
        ({
            let s = stream_patched(set, patch);
            let length = match patch.size {
                Some(n) => n as int,
                None => le64(set, 56),
            };
            &&& s.len() == set.len()
            &&& forall|i: int|
                0 <= i < set.len() && i != 33 && !(40 <= i < 48) && !(52 <= i < 64)
                    ==> #[trigger] s[i] == set[i]
            &&& le64(s, 56) == length
            &&& le64(s, 40) == (match patch.valid_size {
                Some(v) => if v as int <= length {
                    v as int
                } else {
                    length
                },
                None => if patch.size is Some && le64(set, 40) > length {
                    length
                } else {
                    le64(set, 40)
                },
            })
            &&& le32(s, 52) == (match patch.first_cluster {
                Some(c) => c as int,
                None => le32(set, 52),
            })
            &&& no_fat_chain_bit(s[33]) == (match patch.no_fat_chain {
                Some(b) => b,
                None => no_fat_chain_bit(set[33]),
            })
        }),
{
    let a = with_contiguity(set, patch.no_fat_chain);
    let b = with_size(a, patch.size);
    let c = with_valid_size(b, patch.valid_size);
    let s = with_first_cluster(c, patch.first_cluster);
    if let Some(on) = patch.no_fat_chain {
        law_no_fat_chain_bit(set[33], on);
    }
    assert forall|i: int| 0 <= i < set.len() && i != 33 implies #[trigger] a[i] == set[i] by {}
    lemma_size_patched(a, patch.size);
    lemma_valid_patched(b, patch.valid_size);
    lemma_cluster_patched(c, patch.first_cluster);
    lemma_le64_same(a, set, 56);
    lemma_le64_same(a, set, 40);
    lemma_le64_same(c, b, 56);
    lemma_le64_same(s, c, 56);
    lemma_le64_same(s, c, 40);
    assert(le32(c, 52) == le32(set, 52)) by {
        assert(c[52] == set[52] && c[53] == set[53] && c[54] == set[54] && c[55] == set[55]);
    }
    assert forall|i: int|
        0 <= i < set.len() && i != 33 && !(40 <= i < 48) && !(52 <= i < 64) implies #[trigger] s[i]
        == set[i] by {
        assert(s[i] == c[i] && c[i] == b[i] && b[i] == a[i] && a[i] == set[i]);
    }
    assert(patch.valid_size is None ==> c == b);
    assert(s[33] == c[33] && c[33] == b[33]);
}

/// A 64-bit field holds a 64-bit number.
proof fn lemma_le64_bound(b: Seq<u8>, off: int)
    ensures
        0 <= le64(b, off) <= u64::MAX,
{
    assert(0 <= le32(b, off) < 0x1_0000_0000);
    assert(0 <= le32(b, off + 4) < 0x1_0000_0000);
}

/// The attribute part of a patch.
proof fn lemma_attributes_patched(set: Seq<u8>, attrs: Option<Attributes>)
    requires
        set.len() >= 64,
    ensures
        ({
            let s = with_attributes(set, attrs);
            &&& s.len() == set.len()
            &&& forall|i: int| 0 <= i < set.len() && !(4 <= i < 6) ==> #[trigger] s[i] == set[i]
            &&& le16(s, 4) == (match attrs {
                Some(a) => replaced_user_bits(le16(set, 4) as u16, a) as int,
                None => le16(set, 4),
            })
        }),
{
    if let Some(a) = attrs {
        let s = with_attributes(set, attrs);
        let m = replaced_user_bits(le16(set, 4) as u16, a);
        assert(s[4] == le_bytes16(m)[0] && s[5] == le_bytes16(m)[1]);
    }
}

/// The set with one stamp, its increment and its `UtcOffset` byte replaced.
spec fn restamped(set: Seq<u8>, off: int, word: u32, at: int, increment: u8, utc: int) -> Seq<u8> {
    spliced(set, off, le_bytes32(word)).update(at, increment).update(utc, 0)
}

/// Replacing a stamp.
proof fn lemma_restamped(set: Seq<u8>, off: int, word: u32, at: int, increment: u8, utc: int)
    requires
        0 <= off,
        off + 4 <= at < utc,
        utc < set.len(),
    ensures
        ({
            let s = restamped(set, off, word, at, increment, utc);
            &&& s.len() == set.len()
            &&& le32(s, off) == word
            &&& s[at] == increment
            &&& forall|i: int|
                0 <= i < set.len() && !(off <= i < off + 4) && i != at && i != utc
                    ==> #[trigger] s[i] == set[i]
        }),
{
    let s = restamped(set, off, word, at, increment, utc);
    assert forall|i: int| off <= i < off + 4 implies #[trigger] s[i] == le_bytes32(word)[i - off] by {}
    lemma_le_bytes32_read(s, off, word);
}

/// The File part of a patch: its fields, and what it leaves.
proof fn lemma_file_patched(set: Seq<u8>, attrs: Option<Attributes>, t: EntryTimes)
    requires
        set.len() >= 64,
        t.wf(),
    ensures
        ({
            let s = with_times(with_attributes(set, attrs), t);
            &&& s.len() == set.len()
            &&& forall|i: int|
                0 <= i < set.len() && !(4 <= i < 6) && !(8 <= i < 25) ==> #[trigger] s[i] == set[i]
            &&& le16(s, 4) == (match attrs {
                Some(a) => replaced_user_bits(le16(set, 4) as u16, a) as int,
                None => le16(set, 4),
            })
            &&& datetime_of_stamp(le32(s, 8), s[20] as int) == (match t.created {
                Some(_) => stored_datetime(t.created),
                None => datetime_of_stamp(le32(set, 8), set[20] as int),
            })
            &&& datetime_of_stamp(le32(s, 12), s[21] as int) == (match t.modified {
                Some(_) => stored_datetime(t.modified),
                None => datetime_of_stamp(le32(set, 12), set[21] as int),
            })
            &&& datetime_of_stamp(le32(s, 16), 0) == (match t.accessed {
                Some(d) => datetime_of_stamp(date_field(t.accessed), 0),
                None => datetime_of_stamp(le32(set, 16), 0),
            })
        }),
{
    let w = with_attributes(set, attrs);
    lemma_attributes_patched(set, attrs);
    lemma_stamp_fits(t);
    let a = match t.created {
        Some(dt) => restamped(
            w,
            8,
            stamp_of_datetime(dt) as u32,
            20,
            increment_of_datetime(dt) as u8,
            22,
        ),
        None => w,
    };
    if let Some(dt) = t.created {
        lemma_restamped(
            w,
            8,
            stamp_of_datetime(dt) as u32,
            20,
            increment_of_datetime(dt) as u8,
            22,
        );
    }
    let b = match t.modified {
        Some(dt) => restamped(
            a,
            12,
            stamp_of_datetime(dt) as u32,
            21,
            increment_of_datetime(dt) as u8,
            23,
        ),
        None => a,
    };
    if let Some(dt) = t.modified {
        lemma_restamped(
            a,
            12,
            stamp_of_datetime(dt) as u32,
            21,
            increment_of_datetime(dt) as u8,
            23,
        );
    }
    let s = with_times(w, t);
    if let Some(d) = t.accessed {
        let word = (word_of_date(d) * 0x1_0000) as u32;
        assert(s == spliced(b, 16, le_bytes32(word)).update(24, 0));
        assert forall|i: int| 16 <= i < 20 implies #[trigger] s[i] == le_bytes32(word)[i - 16] by {}
        lemma_le_bytes32_read(s, 16, word);
    } else {
        assert(s == b);
    }
    assert forall|i: int| 0 <= i < set.len() && !(16 <= i < 20) && i != 24 implies #[trigger] s[i]
        == b[i] by {}
    assert forall|i: int| 0 <= i < set.len() && !(4 <= i < 6) && !(8 <= i < 25) implies #[trigger] s[i]
        == set[i] by {
        assert(s[i] == b[i] && b[i] == a[i] && a[i] == w[i] && w[i] == set[i]);
    }
    assert(s[4] == w[4] && s[5] == w[5]);
    assert(s[8] == a[8] && s[9] == a[9] && s[10] == a[10] && s[11] == a[11] && s[20] == a[20]);
    assert(s[12] == b[12] && s[13] == b[13] && s[14] == b[14] && s[15] == b[15] && s[21] == b[21]);
    if t.created is None {
        assert(a[8] == set[8] && a[9] == set[9] && a[10] == set[10] && a[11] == set[11] && a[20]
            == set[20]);
    }
    if t.modified is None {
        assert(b[12] == set[12] && b[13] == set[13] && b[14] == set[14] && b[15] == set[15] && b[21]
            == set[21]);
    }
    if t.accessed is None {
        assert(s[16] == set[16] && s[17] == set[17] && s[18] == set[18] && s[19] == set[19]);
    }
}

/// A patched entry set decodes to the entry with the patch applied: what the
/// patch names is changed, all else is as before, but for the valid length,
/// which is cut to a new length below it. So the valid length stays within the
/// data length.
pub proof fn law_patched_set_decodes(
    set: Seq<u8>,
    e: EntryFields,
    patch: EntryPatch,
    times: EntryTimes,
)
    requires
        decoded_set(set) == Some(e),
        times.wf(),
    ensures
        decoded_set(patched_set(set, patch, times)) == Some(patched_fields(e, patch, times)),
        patched_set(set, patch, times).len() == set.len(),
        e.valid_data_length <= e.data_length ==> patched_fields(
            e,
            patch,
            times,
        ).valid_data_length <= patched_fields(e, patch, times).data_length,
{
    lemma_decoded_set_shape(set);
    let s = stream_patched(set, patch);
    lemma_stream_patched(set, patch);
    let t = with_times(with_attributes(s, patch.attrs), times);
    lemma_file_patched(s, patch.attrs, times);
    let r = patched_set(set, patch, times);
    let sum = set_checksum_of(t);
    lemma_set_checksum_range(t);
    assert(r[2] == le_bytes16(sum as u16)[0] && r[3] == le_bytes16(sum as u16)[1]);
    assert(le16(r, 2) == sum);
    law_set_checksum_ignores_itself(t, r);
    assert forall|i: int| 64 <= i < set.len() implies #[trigger] r[i] == set[i] by {
        assert(s[i] == set[i]);
        assert(t[i] == s[i]);
    }
    assert forall|i: int| 32 <= i < 64 implies #[trigger] r[i] == s[i] by {
        assert(t[i] == s[i]);
    }
    assert forall|i: int| 4 <= i < 32 implies #[trigger] r[i] == t[i] by {}
    assert(r[0] == set[0] && r[1] == set[1]) by {
        assert(s[0] == set[0] && s[1] == set[1]);
    }
    assert(r[32] == set[32] && r[35] == set[35]) by {
        assert(s[32] == set[32] && s[35] == set[35]);
    }
    lemma_patched_shape(set, r);
    assert(le64(r, 40) == le64(s, 40) && le64(r, 56) == le64(s, 56) && le32(r, 52) == le32(s, 52));
    assert(le16(r, 4) == le16(t, 4) && le32(r, 8) == le32(t, 8) && le32(r, 12) == le32(t, 12)
        && le32(r, 16) == le32(t, 16) && r[20] == t[20] && r[21] == t[21]);
    assert(le16(s, 4) == le16(set, 4) && le32(s, 8) == le32(set, 8) && le32(s, 12) == le32(set, 12)
        && le32(s, 16) == le32(set, 16) && s[20] == set[20] && s[21] == set[21]);
    lemma_le64_bound(set, 56);
    reveal(decoded_set);
}

/// A set that keeps its type bytes, its counts and its name keeps its shape.
proof fn lemma_patched_shape(set: Seq<u8>, r: Seq<u8>)
    requires
        set_shape(set),
        r.len() == set.len(),
        set_checksum_of(r) == le16(r, 2),
        r[0] == set[0],
        r[1] == set[1],
        r[32] == set[32],
        r[35] == set[35],
        forall|i: int| 64 <= i < set.len() ==> #[trigger] r[i] == set[i],
    ensures
        set_shape(r),
        name_units(r) == name_units(set),
{
    assert forall|i: int| 2 <= i < 1 + r[1] implies #[trigger] r[32 * i] == ENTRY_TYPE_FILE_NAME by {
        assert(r[32 * i] == set[32 * i]);
    }
    let held = 15 * (set[1] - 1);
    assert forall|k: int| 0 <= k < held implies name_unit(r, k) == name_unit(set, k) by {
        let p = 64 + 32 * (k / 15) + 2 + 2 * (k % 15);
        assert(k / 15 < set[1] - 1);
        assert(r[p] == set[p] && r[p + 1] == set[p + 1]);
    }
    assert(name_units(r) =~= name_units(set));
}

} // verus!
