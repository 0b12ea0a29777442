//! exFAT directory entries: the entry-set checksum, the decoder that
//! assembles File + Stream Extension + File Name sets, and the meaning of
//! FAT cells.

use vstd::prelude::*;

use crate::attrs::{has_bits, AttrBits, DIRECTORY};
use crate::bytes::{le16, le32, le64};
use crate::calendar::{Date, PrimitiveDateTime};
use crate::codec::FixedCodec;
use crate::codec::exfat::{roll16, roll_u16};
use crate::codec::exfat::consts::{
    END_OF_DIRECTORY, ENTRY_IN_USE, ENTRY_TYPE_FILE, ENTRY_TYPE_FILE_NAME,
    ENTRY_TYPE_STREAM_EXTENSION, EXFAT_ENTRY_SIZE, FAT_BAD, FAT_EOC,
};
use crate::codec::exfat::raw_entry::{
    no_fat_chain_bit, ExfatFileEntry, ExfatFileNameEntry, ExfatStreamExtension,
};
use crate::codec::time::{datetime_of_stamp, decode_date, decode_datetime};
use crate::text::{decode_utf16, decoded_utf16};

verus! {

/// File attribute bits at offset 0x04 of the primary File entry;
/// same low-byte layout as classic FAT ([`AttrBits`]).
pub type ExfatAttributes = AttrBits;

/// Location of one entry set: the containing directory's walk parameters
/// plus the set's logical byte range within that directory's concatenated
/// cluster stream. Entry sets may straddle cluster boundaries, so consumers
/// resolve this to physical byte segments rather than assuming one
/// contiguous on-disk range.
#[derive(Debug, Clone, Copy, PartialEq, Eq, Structural)]
pub struct SetLoc {
    pub dir_first_cluster: u32,
    pub dir_no_fat_chain: bool,
    /// Cluster cap for the directory walk (`u32::MAX` = unbounded root).
    pub dir_max_clusters: u32,
    /// Logical byte offset of the primary File entry in the dir stream.
    pub logical: u64,
    /// Whole entry-set length in bytes.
    pub len: u32,
}

/// One resolved directory entry from an exFAT volume.
#[derive(Debug)]
pub struct ExfatDirEntry {
    pub name: String,
    pub attributes: ExfatAttributes,
    pub first_cluster: u32,
    /// Bytes actually containing data (used portion of the file).
    pub valid_data_length: u64,
    /// File size in bytes (`DataLength`); the on-disk allocation is
    /// this rounded up to whole clusters.
    pub data_length: u64,
    /// When true, the clusters are contiguous — no FAT chain walk.
    pub no_fat_chain: bool,
    /// Where the entry set lives on disk; `None` when hand-built or decoded
    /// from a detached buffer.
    pub loc: Option<SetLoc>,
    /// Entry-set size in bytes, so write-side code can re-read the set.
    pub entry_set_len: u32,
    /// Creation timestamp, if present (`0` on disk decodes to `None`).
    pub created: Option<PrimitiveDateTime>,
    /// Last-modification timestamp, if present.
    pub modified: Option<PrimitiveDateTime>,
    /// Last-access date, if present.
    pub accessed: Option<Date>,
}

/// What a directory entry says, with the name as a sequence of characters.
pub struct EntryFields {
    pub name: Seq<char>,
    pub attributes: u16,
    pub first_cluster: u32,
    pub valid_data_length: u64,
    pub data_length: u64,
    pub no_fat_chain: bool,
    pub loc: Option<SetLoc>,
    pub entry_set_len: u32,
    pub created: Option<PrimitiveDateTime>,
    pub modified: Option<PrimitiveDateTime>,
    pub accessed: Option<Date>,
}

impl View for ExfatDirEntry {
    type V = EntryFields;

    open spec fn view(&self) -> EntryFields {
        EntryFields {
            name: self.name@,
            attributes: self.attributes.0,
            first_cluster: self.first_cluster,
            valid_data_length: self.valid_data_length,
            data_length: self.data_length,
            no_fat_chain: self.no_fat_chain,
            loc: self.loc,
            entry_set_len: self.entry_set_len,
            created: self.created,
            modified: self.modified,
            accessed: self.accessed,
        }
    }
}

impl EntryFields {
    /// The stamps of the entry are real dates and times.
    pub open spec fn times_wf(self) -> bool {
        &&& self.created matches Some(t) ==> t.wf()
        &&& self.modified matches Some(t) ==> t.wf()
        &&& self.accessed matches Some(d) ==> d.wf()
    }
}

impl ExfatDirEntry {
    /// A copy of this entry.
    pub fn copied(&self) -> (r: Self)
        ensures
            r@ == self@,
    {
        ExfatDirEntry {
            name: self.name.clone(),
            attributes: self.attributes,
            first_cluster: self.first_cluster,
            valid_data_length: self.valid_data_length,
            data_length: self.data_length,
            no_fat_chain: self.no_fat_chain,
            loc: self.loc,
            entry_set_len: self.entry_set_len,
            created: self.created,
            modified: self.modified,
            accessed: self.accessed,
        }
    }

    /// `true` if this entry is a directory.
    pub fn is_dir(&self) -> (r: bool)
        ensures
            r == has_bits(self@.attributes, DIRECTORY),
    {
        self.attributes.is_dir()
    }
}

/// The rotate-and-add checksum of the first `n` bytes of an entry set; bytes
/// 2 and 3, which hold the checksum itself, are left out.
pub open spec fn set_checksum_of(set: Seq<u8>) -> int
    decreases set.len(),
{
    if set.len() == 0 {
        0
    } else {
        let sum = set_checksum_of(set.drop_last());
        if set.len() == 3 || set.len() == 4 {
            sum
        } else {
            roll16(sum, set.last() as int)
        }
    }
}

/// exFAT entry-set checksum (`SetChecksum`): rotate-right + add per byte,
/// skipping bytes 2-3 of the first (File) entry, which hold the checksum
/// itself.
pub fn entry_set_checksum(data: &[u8]) -> (sum: u16)
    ensures
        sum == set_checksum_of(data@),
{
    let mut sum: u16 = 0;
    let mut i: usize = 0;
    while i < data.len()
        invariant
            i <= data@.len(),
            sum == set_checksum_of(data@.subrange(0, i as int)),
        decreases data@.len() - i,
    {
        proof {
            assert(data@.subrange(0, i + 1).drop_last() =~= data@.subrange(0, i as int));
        }
        if !(i == 2 || i == 3) {
            sum = roll_u16(sum, data[i]);
        }
        i += 1;
    }
    assert(data@.subrange(0, i as int) =~= data@);
    sum
}

/// The checksum does not depend on the two bytes that store it.
pub proof fn law_set_checksum_ignores_itself(a: Seq<u8>, b: Seq<u8>)
    requires
        a.len() == b.len(),
        forall|i: int| 0 <= i < a.len() && i != 2 && i != 3 ==> a[i] == b[i],
    ensures
        set_checksum_of(a) == set_checksum_of(b),
    decreases a.len(),
{
    if a.len() > 0 {
        law_set_checksum_ignores_itself(a.drop_last(), b.drop_last());
    }
}

/// The checksum is a 16-bit number.
pub proof fn lemma_set_checksum_range(set: Seq<u8>)
    ensures
        0 <= set_checksum_of(set) <= u16::MAX,
    decreases set.len(),
{
    if set.len() > 0 {
        lemma_set_checksum_range(set.drop_last());
    }
}

// ── Entry sets ──────────────────────────────────────────────────────────

/// Length in bytes of the set whose primary entry starts `set`.
pub open spec fn set_len(set: Seq<u8>) -> int {
    (1 + set[1]) * 32
}

/// Name unit `k` of an entry set: fifteen per File Name entry.
pub open spec fn name_unit(set: Seq<u8>, k: int) -> u16 {
    le16(set, 64 + 32 * (k / 15) + 2 + 2 * (k % 15)) as u16
}

/// The name units of an entry set: as many as the Stream Extension claims
/// and the File Name entries hold.
pub open spec fn name_units(set: Seq<u8>) -> Seq<u16> {
    let claimed = set[35] as int;
    let held = 15 * (set[1] - 1);
    Seq::new(
        (if claimed <= held {
            claimed
        } else {
            held
        }) as nat,
        |k: int| name_unit(set, k),
    )
}

/// `set` is a whole entry set of the right shape: one File entry, one Stream
/// Extension, File Name entries to the end, and the stored checksum right.
pub open spec fn set_shape(set: Seq<u8>) -> bool {
    &&& set.len() >= 64
    &&& set[0] == ENTRY_TYPE_FILE
    &&& set[1] >= 1
    &&& set.len() == set_len(set)
    &&& set_checksum_of(set) == le16(set, 2)
    &&& set[32] == ENTRY_TYPE_STREAM_EXTENSION
    &&& forall|i: int| 2 <= i < 1 + set[1] ==> #[trigger] set[32 * i] == ENTRY_TYPE_FILE_NAME
}

/// What the entry set `set` says, if it is one.
#[verifier::opaque]
pub open spec fn decoded_set(set: Seq<u8>) -> Option<EntryFields> {
    if set_shape(set) && decoded_utf16(name_units(set)) is Some {
        Some(
            EntryFields {
                name: decoded_utf16(name_units(set))->0,
                attributes: le16(set, 4) as u16,
                first_cluster: le32(set, 52) as u32,
                valid_data_length: le64(set, 40) as u64,
                data_length: le64(set, 56) as u64,
                no_fat_chain: no_fat_chain_bit(set[33]),
                loc: None,
                entry_set_len: set.len() as u32,
                created: datetime_of_stamp(le32(set, 8), set[20] as int),
                modified: datetime_of_stamp(le32(set, 12), set[21] as int),
                accessed: match datetime_of_stamp(le32(set, 16), 0) {
                    Some(dt) => Some(dt.date),
                    None => None,
                },
            },
        )
    } else {
        None
    }
}

/// A set that decodes has the right shape, and the entry records its length.
pub proof fn lemma_decoded_set_shape(set: Seq<u8>)
    ensures
        decoded_set(set) matches Some(e) ==> {
            &&& set_shape(set)
            &&& e.entry_set_len == set.len()
            &&& 64 <= set.len() <= 8192
            &&& e.loc is None
        },
{
    reveal(decoded_set);
}

/// What the entry set that starts at `pos` of `buf` says, if there is one.
pub open spec fn decoded_at(buf: Seq<u8>, pos: int) -> Option<EntryFields> {
    if pos + 32 > buf.len() || pos + set_len(buf.subrange(pos, pos + 32)) > buf.len() {
        None
    } else {
        decoded_set(buf.subrange(pos, pos + set_len(buf.subrange(pos, pos + 32))))
    }
}

/// The first entry set at or after slot `pos` that decodes, with the
/// position just past it. A zero type byte ends the directory; anything else
/// that is no good entry set is skipped slot by slot.
pub open spec fn next_entry(buf: Seq<u8>, pos: int) -> Option<(EntryFields, int)>
    decreases buf.len() - pos,
{
    if pos < 0 || pos + 32 > buf.len() || buf[pos] == END_OF_DIRECTORY {
        None
    } else {
        match decoded_at(buf, pos) {
            Some(e) => Some((e, pos + e.entry_set_len)),
            None => next_entry(buf, pos + 32),
        }
    }
}

/// The name units gathered from `set` up to slot `i`: never more than
/// `want`.
spec fn gathered(set: Seq<u8>, want: int, i: int) -> Seq<u16> {
    Seq::new(
        (if want <= 15 * i {
            want
        } else {
            15 * i
        }) as nat,
        |k: int| name_unit(set, k),
    )
}

/// Decoder assembling File + Stream Extension + File Name entry sets
/// from an in-memory directory-cluster buffer into [`ExfatDirEntry`]s.
pub struct DirEntryDecoder {
    pub buf: Vec<u8>,
    pub pos: usize,
}

impl DirEntryDecoder {
    pub open spec fn wf(self) -> bool {
        self.pos <= self.buf@.len()
    }

    pub fn new(buf: Vec<u8>) -> (r: Self)
        ensures
            r.buf@ == buf@,
            r.pos == 0,
            r.wf(),
    {
        DirEntryDecoder { buf, pos: 0 }
    }

    /// The next entry of the directory, `None` at its end.
    pub fn next(&mut self) -> (r: Option<ExfatDirEntry>)
        requires
            old(self).wf(),
        ensures
            final(self).wf(),
            final(self).buf@ == old(self).buf@,
            match next_entry(old(self).buf@, old(self).pos as int) {
                Some((e, p)) => r is Some && r->0@ == e && final(self).pos == p && e.times_wf(),
                None => r is None && next_entry(final(self).buf@, final(self).pos as int) is None,
            },
    {
        while self.buf.len() - self.pos >= EXFAT_ENTRY_SIZE
            invariant
                self.wf(),
                self.buf@ == old(self).buf@,
                next_entry(self.buf@, self.pos as int) == next_entry(
                    old(self).buf@,
                    old(self).pos as int,
                ),
            decreases self.buf@.len() - self.pos,
        {
            let ty: u8 = self.buf[self.pos];
            if ty == END_OF_DIRECTORY {
                return None;
            }
            // InUse (bit 7) cleared = deleted entry; other primaries are
            // benign metadata (bitmap, upcase, label, …). A malformed file
            // set loses just its primary — safer than trusting its
            // secondary count.
            if ty & ENTRY_IN_USE != 0 && ty == ENTRY_TYPE_FILE {
                if let Some(entry) = self.try_decode_file_set() {
                    return Some(entry);
                }
            }
            proof {
                assert(0x85u8 & 0x80u8 != 0) by (bit_vector);
                lemma_decoded_needs_file_type(self.buf@, self.pos as int);
            }
            self.pos += EXFAT_ENTRY_SIZE;
        }
        None
    }

    /// Decode the entry set whose File primary starts at `self.pos`.
    /// Advances `pos` past the set on success; leaves it untouched on
    /// failure so the caller decides how far to skip.
    fn try_decode_file_set(&mut self) -> (r: Option<ExfatDirEntry>)
        requires
            old(self).wf(),
        ensures
            final(self).wf(),
            final(self).buf@ == old(self).buf@,
            match decoded_at(old(self).buf@, old(self).pos as int) {
                Some(e) => {
                    &&& r is Some
                    &&& r->0@ == e
                    &&& final(self).pos == old(self).pos + e.entry_set_len
                    &&& e.times_wf()
                },
                None => r is None && final(self).pos == old(self).pos,
            },
    {
        let start: usize = self.pos;
        let room: usize = self.buf.len() - start;
        if room < EXFAT_ENTRY_SIZE {
            return None;
        }
        let buf: &[u8] = self.buf.as_slice();
        let first: &[u8] = &buf[start..start + EXFAT_ENTRY_SIZE];
        assert(first@ == self.buf@.subrange(start as int, start + 32));
        let secondary_count: usize = first[1] as usize;
        let set_bytes: usize = (1 + secondary_count) * EXFAT_ENTRY_SIZE;
        if room < set_bytes {
            return None;
        }
        let set: &[u8] = &buf[start..start + set_bytes];
        assert(set@.len() == set_bytes);
        assert(set@[0] == first@[0] && set@[1] == first@[1]);
        proof {
            lemma_decoded_set_shape(set@);
        }
        match decode_entry_set(set) {
            Some(entry) => {
                self.pos = start + set_bytes;
                Some(entry)
            },
            None => None,
        }
    }
}

/// Only a File primary starts an entry set.
proof fn lemma_decoded_needs_file_type(buf: Seq<u8>, pos: int)
    requires
        0 <= pos,
        pos + 32 <= buf.len(),
    ensures
        buf[pos] != ENTRY_TYPE_FILE ==> decoded_at(buf, pos) is None,
{
    let n = set_len(buf.subrange(pos, pos + 32));
    if pos + n <= buf.len() {
        lemma_decoded_set_shape(buf.subrange(pos, pos + n));
        assert(buf.subrange(pos, pos + n)[0] == buf[pos]);
    }
}

/// The entry that the whole entry set `set` stands for, `None` if it is
/// malformed.
pub fn decode_entry_set(set: &[u8]) -> (r: Option<ExfatDirEntry>)
    requires
        set@.len() >= 32,
        set@.len() == set_len(set@),
    ensures
        match decoded_set(set@) {
            Some(e) => r is Some && r->0@ == e && e.times_wf(),
            None => r is None,
        },
{
    proof {
        reveal(decoded_set);
    }
    let file = match ExfatFileEntry::parse(set) {
        Some(file) => file,
        None => {
            return None;
        },
    };
    let secondary_count: usize = file.secondary_count as usize;
    // A set needs at least the Stream Extension secondary.
    if secondary_count < 1 {
        return None;
    }
    if entry_set_checksum(set) != file.set_checksum {
        return None;
    }
    let created = decode_datetime(file.create_timestamp, file.create_10ms);
    let modified = decode_datetime(file.modified_timestamp, file.modified_10ms);
    let accessed = decode_date(file.accessed_timestamp);

    // The Stream Extension is always the first secondary.
    let second: &[u8] = &set[EXFAT_ENTRY_SIZE..2 * EXFAT_ENTRY_SIZE];
    let stream = match ExfatStreamExtension::parse(second) {
        Some(stream) => stream,
        None => {
            return None;
        },
    };
    let name_length: usize = stream.name_length as usize;
    proof {
        assert(second@[0] == set@[32]);
        assert(second@[1] == set@[33]);
        assert(second@[3] == set@[35]);
        assert(le64(second@, 8) == le64(set@, 40));
        assert(le32(second@, 20) == le32(set@, 52));
        assert(le64(second@, 24) == le64(set@, 56));
    }

    // File Name secondaries hold 15 UCS-2 units each. A malformed set may
    // promise more name units than are present.
    let mut units: Vec<u16> = Vec::new();
    let mut i: usize = 0;
    while i < secondary_count - 1
        invariant
            1 <= secondary_count,
            i <= secondary_count - 1,
            secondary_count == set@[1],
            set@.len() == set_len(set@),
            name_length == set@[35],
            forall|k: int|
                2 <= k < 2 + i ==> #[trigger] set@[32 * k] == ENTRY_TYPE_FILE_NAME,
            units@ =~= gathered(set@, name_length as int, i as int),
        decreases secondary_count - i,
    {
        let off: usize = EXFAT_ENTRY_SIZE * (2 + i);
        let slot: &[u8] = &set[off..off + EXFAT_ENTRY_SIZE];
        assert(slot@[0] == set@[32 * (2 + i)]);
        let piece = match ExfatFileNameEntry::parse(slot) {
            Some(piece) => piece,
            None => {
                proof {
                    reveal(decoded_set);
                }
                return None;
            },
        };
        let mut j: usize = 0;
        while j < 15 && units.len() < name_length
            invariant
                i + 1 < secondary_count,
                j <= 15,
                secondary_count == set@[1],
                set@.len() == set_len(set@),
                off == 32 * (2 + i),
                slot@ == set@.subrange(off as int, off + 32),
                piece.layout(slot@),
                units@.len() == (if name_length <= 15 * i + j {
                    name_length as int
                } else {
                    15 * i + j
                }),
                forall|k: int| 0 <= k < units@.len() ==> units@[k] == name_unit(set@, k),
            decreases 15 - j,
        {
            proof {
                let k = 15 * i + j;
                assert(k / 15 == i && k % 15 == j);
                assert(piece.name@[j as int] == le16(slot@, 2 + 2 * j));
                assert(slot@[2 + 2 * j] == set@[off + 2 + 2 * j]);
                assert(slot@[3 + 2 * j] == set@[off + 3 + 2 * j]);
            }
            units.push(piece.name[j]);
            j += 1;
        }
        assert forall|k: int| 2 <= k < 3 + i implies #[trigger] set@[32 * k]
            == ENTRY_TYPE_FILE_NAME by {
            if k == 2 + i {
                assert(slot@[0] == set@[32 * (2 + i)]);
            }
        }
        i += 1;
    }
    assert(units@ =~= name_units(set@));
    assert(set_shape(set@));
    match decode_utf16(units.as_slice()) {
        Some(name) => Some(
            ExfatDirEntry {
                name,
                attributes: AttrBits::from_u16(file.attributes),
                first_cluster: stream.first_cluster,
                valid_data_length: stream.valid_data_length,
                data_length: stream.data_length,
                no_fat_chain: stream.no_fat_chain(),
                // A detached buffer has no on-disk location; the directory
                // listing fills in the real one.
                loc: None,
                entry_set_len: set.len() as u32,
                created,
                modified,
                accessed,
            },
        ),
        None => None,
    }
}

// ── FAT cells ───────────────────────────────────────────────────────────

/// Classified FAT entry value for one cluster.
#[derive(Debug, Clone, Copy, PartialEq, Eq, Structural)]
pub enum FatEntry {
    /// Cluster in use; points to the next cluster in the chain.
    Next(u32),
    /// Cluster is free.
    Free,
    /// Cluster is marked bad.
    Bad,
    /// End-of-chain marker for the current file / directory.
    Eoc,
    /// Value reserved or out of the valid range.
    Invalid,
}

/// What a FAT cell means on a volume of `cluster_count` clusters.
pub open spec fn fat_meaning(raw: int, cluster_count: int) -> FatEntry {
    if raw == 0 {
        FatEntry::Free
    } else if raw == FAT_BAD {
        FatEntry::Bad
    } else if raw == FAT_EOC {
        FatEntry::Eoc
    } else if 2 <= raw <= cluster_count + 1 {
        FatEntry::Next(raw as u32)
    } else {
        FatEntry::Invalid
    }
}

pub fn classify_fat_entry(raw: u32, cluster_count: u32) -> (r: FatEntry)
    ensures
        r == fat_meaning(raw as int, cluster_count as int),
{
    if raw == 0 {
        FatEntry::Free
    } else if raw == FAT_BAD {
        FatEntry::Bad
    } else if raw == FAT_EOC {
        FatEntry::Eoc
    } else if raw >= 2 && raw - 1 <= cluster_count {
        // Valid clusters are 2..=cluster_count+1; `raw - 1 <=` avoids
        // overflow when `cluster_count == u32::MAX`.
        FatEntry::Next(raw)
    } else {
        FatEntry::Invalid
    }
}

/// Cluster-layout descriptor for a directory: the root is FAT-chained
/// and unbounded, while a sub-directory may be contiguous (NoFatChain)
/// and bounded by its Stream Extension's `data_length`.
#[derive(Debug, Clone, Copy, PartialEq, Eq, Structural)]
pub struct DirExtent {
    pub first_cluster: u32,
    pub no_fat_chain: bool,
    /// Maximum clusters to walk — `u32::MAX` = unbounded (the root).
    pub max_clusters: u32,
    /// Location of this directory's own entry set in its parent, so
    /// growth can patch `DataLength`/`NoFatChain` and the checksum. `None`
    /// for the root, which has no parent entry.
    pub parent_entry: Option<SetLoc>,
}

} // verus!
